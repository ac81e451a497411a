//! Full-text search through markdown files: every occurrence of a query in
//! every line, file by file in the order of the paths, up to a fixed number
//! of results.

use crate::error::AppError;
use crate::order::{is_ordering, is_strict_order, lemma_insert_in_order, lemma_ordering, ordering};
use crate::text::{
    find_from, lowercase_of, occurs_at, split_lines, text_lines, texts_view, to_lowercase, DOT,
    SLASH,
};
use crate::utils::{file_name, files_view, name_of, MarkdownFile, MarkdownFileView};
use vstd::prelude::*;
use vstd::slice::*;
use vstd::string::*;
use vstd::utf8::*;

verus! {

/// The greatest number of results that one search returns.
pub const MAX_RESULTS: usize = 500;

/// One occurrence of the query.
#[derive(Debug, Clone, PartialEq, Eq)]
pub struct SearchResult {
    /// The path of the file.
    pub file_path: String,
    /// The name of the file, the last component of its path.
    pub file_name: String,
    /// The number of the line in the file, counted from 1.
    pub line_number: usize,
    /// The line as it stands in the file.
    pub line_content: String,
    /// The byte offset in the line at which the occurrence begins.
    pub match_start: usize,
    /// The byte offset at which it ends: the start and the query's length.
    pub match_end: usize,
}

/// A search result as a mathematical value.
pub struct SearchResultView {
    pub file_path: Seq<char>,
    pub file_name: Seq<char>,
    pub line_number: int,
    pub line_content: Seq<char>,
    pub match_start: int,
    pub match_end: int,
}

impl View for SearchResult {
    type V = SearchResultView;

    open spec fn view(&self) -> SearchResultView {
        SearchResultView {
            file_path: self.file_path@,
            file_name: self.file_name@,
            line_number: self.line_number as int,
            line_content: self.line_content@,
            match_start: self.match_start as int,
            match_end: self.match_end as int,
        }
    }
}

/// What is searched for: the query as it was typed, and whether upper and
/// lower case differ.
pub struct Query {
    pub text: Seq<char>,
    pub case_sensitive: bool,
}

/// One line of one file.
pub struct Line {
    pub file_path: Seq<char>,
    pub file_name: Seq<char>,
    pub number: int,
    pub text: Seq<char>,
}

/// The bytes in which a text is compared: its own where case matters, those
/// of its lowercase form where it does not.
pub open spec fn search_form(text: Seq<char>, case_sensitive: bool) -> Seq<u8> {
    if case_sensitive {
        encode_utf8(text)
    } else {
        encode_utf8(lowercase_of(text))
    }
}

/// The greatest offset that a result can hold.
pub open spec fn clamp(offset: int) -> int {
    if offset > usize::MAX {
        usize::MAX as int
    } else {
        offset
    }
}

/// The result for an occurrence at byte offset `at` of the line. The end is
/// the start and the length of the query as it was typed.
pub open spec fn hit(line: Line, query: Query, at: int) -> SearchResultView {
    SearchResultView {
        file_path: line.file_path,
        file_name: line.file_name,
        line_number: line.number,
        line_content: line.text,
        match_start: at,
        match_end: clamp(at + encode_utf8(query.text).len()),
    }
}

/// Whether the query occurs in the line at byte offset `at`.
pub open spec fn hits_at(line: Line, query: Query, at: int) -> bool {
    occurs_at(
        search_form(line.text, query.case_sensitive),
        search_form(query.text, query.case_sensitive),
        at,
    )
}

/// The results for the occurrences in the line that begin before `bound`,
/// from left to right. Occurrences may overlap.
pub open spec fn line_hits_below(line: Line, query: Query, bound: int) -> Seq<SearchResultView>
    decreases bound,
{
    if bound <= 0 {
        Seq::empty()
    } else if hits_at(line, query, bound - 1) {
        line_hits_below(line, query, bound - 1).push(hit(line, query, bound - 1))
    } else {
        line_hits_below(line, query, bound - 1)
    }
}

/// The results for all occurrences in the line.
pub open spec fn line_hits(line: Line, query: Query) -> Seq<SearchResultView> {
    line_hits_below(line, query, search_form(line.text, query.case_sensitive).len() as int + 1)
}

/// The results in the first `count` lines of a file.
pub open spec fn lines_hits(
    file_path: Seq<char>,
    file_name: Seq<char>,
    lines: Seq<Seq<char>>,
    query: Query,
    count: int,
) -> Seq<SearchResultView>
    decreases count,
{
    if count <= 0 {
        Seq::empty()
    } else {
        lines_hits(file_path, file_name, lines, query, count - 1) + line_hits(
            Line { file_path, file_name, number: count, text: lines[count - 1] },
            query,
        )
    }
}

/// The results in one file, line by line. A file that could not be read has
/// none.
pub open spec fn file_hits(file: MarkdownFileView, query: Query) -> Seq<SearchResultView> {
    match file.content {
        Some(text) => lines_hits(
            file.path,
            name_of(file.path),
            text_lines(text),
            query,
            text_lines(text).len() as int,
        ),
        None => Seq::empty(),
    }
}

/// The results in the first `count` files of `order`.
pub open spec fn files_hits(
    files: Seq<MarkdownFileView>,
    order: Seq<usize>,
    query: Query,
    count: int,
) -> Seq<SearchResultView>
    decreases count,
{
    if count <= 0 {
        Seq::empty()
    } else {
        files_hits(files, order, query, count - 1) + file_hits(
            files[order[count - 1] as int],
            query,
        )
    }
}

/// The first `MAX_RESULTS` of the results, or all where they are fewer.
pub open spec fn capped(hits: Seq<SearchResultView>) -> Seq<SearchResultView> {
    if hits.len() > MAX_RESULTS {
        hits.take(MAX_RESULTS as int)
    } else {
        hits
    }
}

/// The mark that ends a component in the key of a path.
pub const END_OF_COMPONENT: u32 = 0;

/// The mark of the root in the key of a path.
pub const ROOT_MARK: u32 = 1;

/// The mark of a component `.` at the start of a path.
pub const HERE_MARK: u32 = 2;

/// The mark of a component `..`.
pub const PARENT_MARK: u32 = 3;

/// The least mark of a byte of a name: a byte stands in a key as its value
/// and this.
pub const NAME_MARKS: u32 = 4;

/// The offset of the first slash at or after `i`, or the length of the path
/// where none follows.
pub open spec fn component_end(path: Seq<u8>, i: int) -> int
    decreases path.len() - i,
{
    if i >= path.len() {
        path.len() as int
    } else if path[i] == SLASH {
        i
    } else {
        component_end(path, i + 1)
    }
}

/// The end of a component lies between its start and the end of the path.
pub proof fn lemma_component_end_bounds(path: Seq<u8>, i: int)
    requires
        0 <= i <= path.len(),
    ensures
        i <= component_end(path, i) <= path.len(),
        i < path.len() && path[i] != SLASH ==> i < component_end(path, i),
    decreases path.len() - i,
{
    if i < path.len() && path[i] != SLASH {
        lemma_component_end_bounds(path, i + 1);
    }
}

/// The marks of the bytes of a name.
pub open spec fn name_marks(name: Seq<u8>) -> Seq<u32> {
    Seq::new(name.len(), |k: int| (name[k] + NAME_MARKS) as u32)
}

/// The key of the components of a path from offset `i` on. Empty
/// components and components `.` leave no mark, but for a `.` at the start
/// of the path; a component `..` leaves its mark, and a name the marks of
/// its bytes; each is closed by the mark of its end.
pub open spec fn key_from(path: Seq<u8>, i: int) -> Seq<u32>
    decreases path.len() - i,
{
    if i < 0 || i >= path.len() {
        Seq::empty()
    } else if path[i] == SLASH {
        key_from(path, i + 1)
    } else {
        let end = component_end(path, i);
        proof {
            lemma_component_end_bounds(path, i);
        }
        let name = path.subrange(i, end);
        let rest = key_from(path, end);
        if name == seq![DOT] {
            if i == 0 {
                seq![HERE_MARK, END_OF_COMPONENT] + rest
            } else {
                rest
            }
        } else if name == seq![DOT, DOT] {
            seq![PARENT_MARK, END_OF_COMPONENT] + rest
        } else {
            name_marks(name) + seq![END_OF_COMPONENT] + rest
        }
    }
}

/// The key of a path: the marks of its components in their order, the root
/// first where the path begins with a slash. Two paths compare as their
/// keys do, mark by mark: so a path is compared component by component, the
/// root before `.` before `..` before any name, names byte by byte, and a
/// path that ends comes first.
pub open spec fn path_key(path: Seq<u8>) -> Seq<u32> {
    if path.len() > 0 && path[0] == SLASH {
        seq![ROOT_MARK, END_OF_COMPONENT] + key_from(path, 0)
    } else {
        key_from(path, 0)
    }
}

/// The order of keys from offset `i` on: the first differing mark decides,
/// and a key that ends comes first.
pub open spec fn key_le_from(a: Seq<u32>, b: Seq<u32>, i: int) -> bool
    decreases a.len() - i,
{
    if i < 0 || i >= a.len() {
        true
    } else if i >= b.len() {
        false
    } else if a[i] != b[i] {
        a[i] < b[i]
    } else {
        key_le_from(a, b, i + 1)
    }
}

/// The order of paths: component by component, as their keys compare.
pub open spec fn path_le(a: Seq<u8>, b: Seq<u8>) -> bool {
    key_le_from(path_key(a), path_key(b), 0)
}

/// Whether the file at place `a` is searched before the file at place `b`:
/// by the order of the paths, and files of one path in the order given.
pub open spec fn searched_before(files: Seq<MarkdownFileView>, a: int, b: int) -> bool {
    let x = encode_utf8(files[a].path);
    let y = encode_utf8(files[b].path);
    !path_le(y, x) || (path_le(x, y) && a < b)
}

/// The order of the search as a relation on places.
pub open spec fn search_order(files: Seq<MarkdownFileView>) -> spec_fn(int, int) -> bool {
    |a: int, b: int| searched_before(files, a, b)
}

/// The places of the files in the order in which they are searched.
pub open spec fn path_order(files: Seq<MarkdownFileView>) -> Seq<usize> {
    ordering(search_order(files), files.len())
}

/// What a search returns: nothing for an empty query; else the results of
/// all files in the order of their paths, cut off at `MAX_RESULTS`.
pub open spec fn search_hits(files: Seq<MarkdownFileView>, query: Query) -> Seq<SearchResultView> {
    if query.text.len() == 0 {
        Seq::empty()
    } else {
        capped(files_hits(files, path_order(files), query, files.len() as int))
    }
}

/// The results of a list as mathematical values.
pub open spec fn results_view(results: Seq<SearchResult>) -> Seq<SearchResultView> {
    results.map_values(|r: SearchResult| r@)
}

/// Whether `s` is the beginning of `t`.
pub open spec fn is_prefix(s: Seq<SearchResultView>, t: Seq<SearchResultView>) -> bool {
    s.len() <= t.len() && t.take(s.len() as int) == s
}

/// A beginning stays one when more follows, and when the same results
/// stand before both.
proof fn lemma_prefix_add(
    s: Seq<SearchResultView>,
    t: Seq<SearchResultView>,
    u: Seq<SearchResultView>,
)
    requires
        is_prefix(s, t),
    ensures
        is_prefix(s, t + u),
        is_prefix(u + s, u + t),
{
    assert((t + u).take(s.len() as int) =~= t.take(s.len() as int));
    assert((u + t).take((u + s).len() as int) =~= u + t.take(s.len() as int));
}

/// Every list begins itself.
proof fn lemma_prefix_reflexive(s: Seq<SearchResultView>)
    ensures
        is_prefix(s, s),
{
    assert(s.take(s.len() as int) =~= s);
}

/// Once the first results fill the limit, what follows them does not count.
proof fn lemma_capped_prefix(s: Seq<SearchResultView>, t: Seq<SearchResultView>)
    requires
        is_prefix(s, t),
        s.len() >= MAX_RESULTS,
    ensures
        capped(t) == capped(s),
{
    assert(t.take(MAX_RESULTS as int) =~= t.take(s.len() as int).take(MAX_RESULTS as int));
    assert(s.take(s.len() as int) =~= s);
    if s.len() == MAX_RESULTS {
        assert(capped(s) == s);
    }
    if t.len() == MAX_RESULTS {
        assert(t.take(MAX_RESULTS as int) =~= t);
    }
}

/// The results before a bound begin the results before every later bound.
proof fn lemma_line_hits_grow(line: Line, query: Query, a: int, b: int)
    requires
        a <= b,
    ensures
        is_prefix(line_hits_below(line, query, a), line_hits_below(line, query, b)),
    decreases b - a,
{
    let s = line_hits_below(line, query, a);
    if a == b {
        lemma_prefix_reflexive(s);
    } else {
        lemma_line_hits_grow(line, query, a, b - 1);
        let t = line_hits_below(line, query, b - 1);
        if b > 0 && hits_at(line, query, b - 1) {
            lemma_prefix_add(s, t, seq![hit(line, query, b - 1)]);
            assert(t + seq![hit(line, query, b - 1)] =~= t.push(hit(line, query, b - 1)));
        }
    }
}

/// Where the query does not occur between two bounds, the results before
/// both are the same.
proof fn lemma_line_hits_skip(line: Line, query: Query, a: int, b: int)
    requires
        a <= b,
        forall|q: int| a <= q < b ==> !hits_at(line, query, q),
    ensures
        line_hits_below(line, query, b) == line_hits_below(line, query, a),
    decreases b - a,
{
    if a < b {
        lemma_line_hits_skip(line, query, a, b - 1);
    }
}

/// The results of the first lines begin the results of more lines.
proof fn lemma_lines_hits_grow(
    file_path: Seq<char>,
    file_name: Seq<char>,
    lines: Seq<Seq<char>>,
    query: Query,
    a: int,
    b: int,
)
    requires
        a <= b,
    ensures
        is_prefix(
            lines_hits(file_path, file_name, lines, query, a),
            lines_hits(file_path, file_name, lines, query, b),
        ),
    decreases b - a,
{
    let s = lines_hits(file_path, file_name, lines, query, a);
    if a == b {
        lemma_prefix_reflexive(s);
    } else {
        lemma_lines_hits_grow(file_path, file_name, lines, query, a, b - 1);
        let t = lines_hits(file_path, file_name, lines, query, b - 1);
        if b > 0 {
            lemma_prefix_add(
                s,
                t,
                line_hits(Line { file_path, file_name, number: b, text: lines[b - 1] }, query),
            );
        }
    }
}

/// The results of the first files begin the results of more files.
proof fn lemma_files_hits_grow(
    files: Seq<MarkdownFileView>,
    order: Seq<usize>,
    query: Query,
    a: int,
    b: int,
)
    requires
        a <= b,
    ensures
        is_prefix(files_hits(files, order, query, a), files_hits(files, order, query, b)),
    decreases b - a,
{
    let s = files_hits(files, order, query, a);
    if a == b {
        lemma_prefix_reflexive(s);
    } else {
        lemma_files_hits_grow(files, order, query, a, b - 1);
        let t = files_hits(files, order, query, b - 1);
        if b > 0 {
            lemma_prefix_add(s, t, file_hits(files[order[b - 1] as int], query));
        }
    }
}

/// Of two keys one comes first, from any offset on.
proof fn lemma_key_le_from_total(a: Seq<u32>, b: Seq<u32>, i: int)
    requires
        0 <= i,
    ensures
        key_le_from(a, b, i) || key_le_from(b, a, i),
    decreases a.len() - i,
{
    if i < a.len() && i < b.len() && a[i] == b[i] {
        lemma_key_le_from_total(a, b, i + 1);
    }
}

/// The order of keys from an offset on is transitive.
proof fn lemma_key_le_from_transitive(a: Seq<u32>, b: Seq<u32>, c: Seq<u32>, i: int)
    requires
        0 <= i,
        key_le_from(a, b, i),
        key_le_from(b, c, i),
    ensures
        key_le_from(a, c, i),
    decreases a.len() - i,
{
    if i < a.len() {
        if a[i] == b[i] && b[i] == c[i] {
            lemma_key_le_from_transitive(a, b, c, i + 1);
        }
    }
}

/// The order of paths is reflexive, total and transitive.
pub proof fn lemma_path_le_order(a: Seq<u8>, b: Seq<u8>, c: Seq<u8>)
    ensures
        path_le(a, a),
        path_le(a, b) || path_le(b, a),
        path_le(a, b) && path_le(b, c) ==> path_le(a, c),
{
    lemma_key_le_from_total(path_key(a), path_key(a), 0);
    lemma_key_le_from_total(path_key(a), path_key(b), 0);
    if path_le(a, b) && path_le(b, c) {
        lemma_key_le_from_transitive(path_key(a), path_key(b), path_key(c), 0);
    }
}

/// The order of the search is a strict order of the places.
pub proof fn lemma_search_order_strict(files: Seq<MarkdownFileView>)
    ensures
        is_strict_order(search_order(files)),
{
    let before = search_order(files);
    assert forall|a: int| !#[trigger] before(a, a) by {
        let x = encode_utf8(files[a].path);
        lemma_path_le_order(x, x, x);
    }
    assert forall|a: int, b: int, c: int| #[trigger] before(a, b) && #[trigger] before(b, c) implies before(
        a,
        c,
    ) by {
        let x = encode_utf8(files[a].path);
        let y = encode_utf8(files[b].path);
        let z = encode_utf8(files[c].path);
        lemma_path_le_order(x, y, z);
        lemma_path_le_order(y, z, x);
        lemma_path_le_order(z, x, y);
        lemma_path_le_order(z, y, x);
        lemma_path_le_order(y, x, z);
    }
    assert forall|a: int, b: int| a != b implies #[trigger] before(a, b) || before(b, a) by {
        let x = encode_utf8(files[a].path);
        let y = encode_utf8(files[b].path);
        lemma_path_le_order(x, y, x);
    }
}

/// Computes the key of a path.
pub fn key_of_path(path: &[u8]) -> (key: Vec<u32>)
    ensures
        key@ == path_key(path@),
{
    let n = path.len();
    let mut key: Vec<u32> = Vec::new();
    if n > 0 && path[0] == SLASH {
        key.push(ROOT_MARK);
        key.push(END_OF_COMPONENT);
    }
    let mut i: usize = 0;
    assert(key@ + key_from(path@, 0) =~= path_key(path@));
    while i < n
        invariant
            n == path@.len(),
            i <= n,
            key@ + key_from(path@, i as int) == path_key(path@),
        decreases n - i,
    {
        if path[i] == SLASH {
            i = i + 1;
        } else {
            let ghost before = key@;
            let mut end: usize = i;
            while end < n && path[end] != SLASH
                invariant
                    n == path@.len(),
                    i <= end <= n,
                    component_end(path@, i as int) == component_end(path@, end as int),
                decreases n - end,
            {
                end = end + 1;
            }
            let ghost name = path@.subrange(i as int, end as int);
            let ghost rest = key_from(path@, end as int);
            proof {
                lemma_component_end_bounds(path@, i as int);
                assert(component_end(path@, i as int) == end);
                assert(seq![DOT].len() == 1 && seq![DOT, DOT].len() == 2);
            }
            if end - i == 1 && path[i] == DOT {
                assert(name =~= seq![DOT]);
                if i == 0 {
                    key.push(HERE_MARK);
                    key.push(END_OF_COMPONENT);
                    assert(key@ + rest =~= before + (seq![HERE_MARK, END_OF_COMPONENT] + rest));
                }
            } else if end - i == 2 && path[i] == DOT && path[i + 1] == DOT {
                assert(name =~= seq![DOT, DOT]);
                key.push(PARENT_MARK);
                key.push(END_OF_COMPONENT);
                assert(key@ + rest =~= before + (seq![PARENT_MARK, END_OF_COMPONENT] + rest));
            } else {
                proof {
                    if end - i == 1 {
                        assert(name[0] != seq![DOT][0]);
                    }
                    if end - i == 2 {
                        assert(name[0] != seq![DOT, DOT][0] || name[1] != seq![DOT, DOT][1]);
                    }
                }
                let mut k: usize = i;
                while k < end
                    invariant
                        n == path@.len(),
                        i <= k <= end <= n,
                        name == path@.subrange(i as int, end as int),
                        key@ == before + name_marks(name).take(k - i),
                    decreases end - k,
                {
                    let ghost so_far = key@;
                    let mark: u32 = path[k] as u32 + NAME_MARKS;
                    key.push(mark);
                    proof {
                        assert(name_marks(name)[k - i] == mark);
                        assert(name_marks(name).take(k - i + 1) =~= name_marks(name).take(k - i).push(
                            mark,
                        ));
                    }
                    k = k + 1;
                }
                key.push(END_OF_COMPONENT);
                proof {
                    assert(name_marks(name).take(end - i) =~= name_marks(name));
                    assert(key@ + rest =~= before + (name_marks(name) + seq![END_OF_COMPONENT]
                        + rest));
                }
            }
            i = end;
        }
    }
    assert(key@ + key_from(path@, n as int) =~= key@);
    key
}

/// Compares two keys mark by mark.
pub fn key_precedes(a: &[u32], b: &[u32]) -> (r: bool)
    ensures
        r == key_le_from(a@, b@, 0),
{
    let mut i: usize = 0;
    while i < a.len() && i < b.len() && a[i] == b[i]
        invariant
            i <= a.len(),
            i <= b.len(),
            key_le_from(a@, b@, 0) == key_le_from(a@, b@, i as int),
        decreases a.len() - i,
    {
        i = i + 1;
    }
    if i >= a.len() {
        true
    } else if i >= b.len() {
        false
    } else {
        a[i] < b[i]
    }
}

/// Compares two paths in the order of paths.
pub fn path_precedes(a: &[u8], b: &[u8]) -> (r: bool)
    ensures
        r == path_le(a@, b@),
{
    let left = key_of_path(a);
    let right = key_of_path(b);
    key_precedes(left.as_slice(), right.as_slice())
}

/// Puts the files in the order in which they are searched: by their paths,
/// and files of one path in the order given.
pub fn sort_by_path(files: &Vec<MarkdownFile>) -> (order: Vec<usize>)
    ensures
        order@ == path_order(files_view(files@)),
        is_ordering(search_order(files_view(files@)), files@.len(), order@),
        order@.len() == files@.len(),
{
    let ghost fv = files_view(files@);
    let ghost before = search_order(fv);
    let n = files.len();
    let mut keys: Vec<Vec<u32>> = Vec::new();
    let mut i: usize = 0;
    while i < n
        invariant
            fv == files_view(files@),
            n == files@.len(),
            i <= n,
            keys@.len() == i,
            forall|k: int| 0 <= k < i ==> (#[trigger] keys@[k])@ == path_key(encode_utf8(fv[k].path)),
        decreases n - i,
    {
        assert(files@[i as int]@ == fv[i as int]);
        keys.push(key_of_path(files[i].path.as_str().as_bytes()));
        i = i + 1;
    }
    let mut order: Vec<usize> = Vec::new();
    let mut j: usize = 0;
    proof {
        lemma_search_order_strict(fv);
    }
    while j < n
        invariant
            fv == files_view(files@),
            before == search_order(fv),
            is_strict_order(before),
            n == files@.len(),
            keys@.len() == n,
            forall|k: int| 0 <= k < n ==> (#[trigger] keys@[k])@ == path_key(encode_utf8(fv[k].path)),
            j <= n,
            order@.len() == j,
            is_ordering(before, j as nat, order@),
        decreases n - j,
    {
        let key = keys[j].as_slice();
        let mut pos: usize = order.len();
        proof {
            assert forall|k: int| 0 <= k < order@.len() implies #[trigger] order@[k] < j by {
                assert(order@.contains(order@[k]));
            }
        }
        while pos > 0 && !key_precedes(keys[order[pos - 1]].as_slice(), key)
            invariant
                fv == files_view(files@),
                before == search_order(fv),
                n == files@.len(),
                j < n,
                keys@.len() == n,
                forall|k: int|
                    0 <= k < n ==> (#[trigger] keys@[k])@ == path_key(encode_utf8(fv[k].path)),
                key@ == path_key(encode_utf8(fv[j as int].path)),
                pos <= order@.len(),
                forall|k: int| 0 <= k < order@.len() ==> #[trigger] order@[k] < j,
                forall|k: int| pos <= k < order@.len() ==> before(j as int, #[trigger] order@[k] as int),
            decreases pos,
        {
            pos = pos - 1;
        }
        proof {
            assert forall|k: int| 0 <= k < pos implies before(#[trigger] order@[k] as int, j as int) by {
                let last = order@[pos - 1] as int;
                assert(before(last, j as int));
                if k < pos - 1 {
                    assert(before(order@[k] as int, order@[pos - 1] as int));
                }
            }
            lemma_insert_in_order(before, order@, pos as int, j);
            assert(!order@.contains(j));
        }
        order.insert(pos, j);
        j = j + 1;
    }
    proof {
        lemma_ordering(before, n as nat);
    }
    order
}

/// Searches one line and adds its results, up to the limit. Returns whether
/// the limit is reached.
fn search_line(
    results: &mut Vec<SearchResult>,
    file_path: &String,
    file_name: &String,
    number: usize,
    text: &String,
    query: &str,
    needle: &str,
    case_sensitive: bool,
) -> (full: bool)
    requires
        old(results)@.len() < MAX_RESULTS,
        needle.spec_bytes() == search_form(query@, case_sensitive),
    ensures
        results_view(final(results)@) == capped(
            results_view(old(results)@) + line_hits(
                Line {
                    file_path: file_path@,
                    file_name: file_name@,
                    number: number as int,
                    text: text@,
                },
                Query { text: query@, case_sensitive },
            ),
        ),
        full == (final(results)@.len() >= MAX_RESULTS),
        final(results)@.len() <= MAX_RESULTS,
{
    let ghost line = Line {
        file_path: file_path@,
        file_name: file_name@,
        number: number as int,
        text: text@,
    };
    let ghost q = Query { text: query@, case_sensitive };
    let ghost found = results_view(results@);
    let compared: String = if case_sensitive {
        text.clone()
    } else {
        to_lowercase(text.as_str())
    };
    let hay = compared.as_str().as_bytes();
    let pat = needle.as_bytes();
    let query_len = query.as_bytes().len();
    let mut start: usize = 0;
    assert(results_view(results@) =~= found + line_hits_below(line, q, 0));
    loop
        invariant
            hay@ == search_form(line.text, case_sensitive),
            pat@ == search_form(q.text, case_sensitive),
            q == (Query { text: query@, case_sensitive }),
            query_len == encode_utf8(q.text).len(),
            line == (Line {
                file_path: file_path@,
                file_name: file_name@,
                number: number as int,
                text: text@,
            }),
            start <= hay@.len(),
            found == results_view(old(results)@),
            results@.len() < MAX_RESULTS,
            results_view(results@) == found + line_hits_below(line, q, start as int),
        decreases hay@.len() - start,
    {
        let ghost so_far = results_view(results@);
        match find_from(hay, pat, start) {
            None => {
                proof {
                    lemma_line_hits_skip(line, q, start as int, hay@.len() as int + 1);
                }
                return false;
            },
            Some(at) => {
                proof {
                    lemma_line_hits_skip(line, q, start as int, at as int);
                    assert(hits_at(line, q, at as int));
                }
                let result = SearchResult {
                    file_path: file_path.clone(),
                    file_name: file_name.clone(),
                    line_number: number,
                    line_content: text.clone(),
                    match_start: at,
                    match_end: at.saturating_add(query_len),
                };
                proof {
                    assert(result@ == hit(line, q, at as int));
                    assert(results_view(results@.push(result)) =~= so_far.push(result@));
                    assert(so_far.push(result@) =~= found + line_hits_below(line, q, at + 1));
                }
                results.push(result);
                if results.len() >= MAX_RESULTS {
                    proof {
                        let all = line_hits(line, q);
                        lemma_line_hits_grow(line, q, at + 1, hay@.len() as int + 1);
                        lemma_prefix_add(line_hits_below(line, q, at + 1), all, found);
                        lemma_capped_prefix(results_view(results@), found + all);
                    }
                    return true;
                }
                if at >= hay.len() {
                    return false;
                }
                start = at + 1;
            },
        }
    }
}

/// Searches the lines of one file and adds their results, up to the limit.
/// Returns whether the limit is reached.
fn search_lines(
    results: &mut Vec<SearchResult>,
    file_path: &String,
    file_name: &String,
    lines: &Vec<String>,
    query: &str,
    needle: &str,
    case_sensitive: bool,
) -> (full: bool)
    requires
        old(results)@.len() < MAX_RESULTS,
        needle.spec_bytes() == search_form(query@, case_sensitive),
    ensures
        results_view(final(results)@) == capped(
            results_view(old(results)@) + lines_hits(
                file_path@,
                file_name@,
                texts_view(lines@),
                Query { text: query@, case_sensitive },
                lines@.len() as int,
            ),
        ),
        full == (final(results)@.len() >= MAX_RESULTS),
        final(results)@.len() <= MAX_RESULTS,
{
    let ghost q = Query { text: query@, case_sensitive };
    let ghost found = results_view(results@);
    let ghost texts = texts_view(lines@);
    let n = lines.len();
    let mut i: usize = 0;
    assert(results_view(results@) =~= found + lines_hits(file_path@, file_name@, texts, q, 0));
    while i < n
        invariant
            n == lines@.len(),
            i <= n,
            texts == texts_view(lines@),
            q == (Query { text: query@, case_sensitive }),
            needle.spec_bytes() == search_form(query@, case_sensitive),
            found == results_view(old(results)@),
            results@.len() < MAX_RESULTS,
            results_view(results@) == found + lines_hits(file_path@, file_name@, texts, q, i as int),
        decreases n - i,
    {
        let ghost so_far = results_view(results@);
        let full = search_line(
            results,
            file_path,
            file_name,
            i + 1,
            &lines[i],
            query,
            needle,
            case_sensitive,
        );
        proof {
            let line = Line {
                file_path: file_path@,
                file_name: file_name@,
                number: i + 1,
                text: texts[i as int],
            };
            let next = found + lines_hits(file_path@, file_name@, texts, q, i + 1);
            assert(so_far + line_hits(line, q) =~= next);
            if full {
                lemma_lines_hits_grow(file_path@, file_name@, texts, q, i + 1, n as int);
                lemma_prefix_add(
                    lines_hits(file_path@, file_name@, texts, q, i + 1),
                    lines_hits(file_path@, file_name@, texts, q, n as int),
                    found,
                );
                lemma_capped_prefix(
                    next,
                    found + lines_hits(file_path@, file_name@, texts, q, n as int),
                );
            }
        }
        if full {
            return true;
        }
        i = i + 1;
    }
    false
}

/// Searches one file with the query in its compared form, and adds the
/// results, up to the limit.
fn search_file(
    results: &mut Vec<SearchResult>,
    file: &MarkdownFile,
    query: &str,
    needle: &str,
    case_sensitive: bool,
) -> (full: bool)
    requires
        old(results)@.len() < MAX_RESULTS,
        needle.spec_bytes() == search_form(query@, case_sensitive),
    ensures
        results_view(final(results)@) == capped(
            results_view(old(results)@) + file_hits(file@, Query { text: query@, case_sensitive }),
        ),
        full == (final(results)@.len() >= MAX_RESULTS),
        final(results)@.len() <= MAX_RESULTS,
{
    match &file.content {
        Some(text) => {
            let name = file_name(file.path.as_str());
            let lines = split_lines(text.as_str());
            search_lines(results, &file.path, &name, &lines, query, needle, case_sensitive)
        },
        None => {
            assert(results_view(results@) + Seq::<SearchResultView>::empty() =~= results_view(
                results@,
            ));
            false
        },
    }
}

/// The results that one file adds to a search: none for an empty query.
pub open spec fn content_hits(file: MarkdownFileView, query: Query) -> Seq<SearchResultView> {
    if query.text.len() == 0 {
        Seq::empty()
    } else {
        file_hits(file, query)
    }
}

/// Searches one file and adds its results to those found so far, up to the
/// limit. Returns whether the limit is reached, after which no further file
/// need be read. Results that already fill the limit are left as they are.
pub fn search_content(
    results: &mut Vec<SearchResult>,
    file: &MarkdownFile,
    query: &str,
    case_sensitive: bool,
) -> (full: bool)
    ensures
        old(results)@.len() >= MAX_RESULTS ==> final(results)@ == old(results)@,
        old(results)@.len() < MAX_RESULTS ==> results_view(final(results)@) == capped(
            results_view(old(results)@) + content_hits(
                file@,
                Query { text: query@, case_sensitive },
            ),
        ),
        full == (final(results)@.len() >= MAX_RESULTS),
{
    if results.len() >= MAX_RESULTS {
        return true;
    }
    if query.is_empty() {
        assert(results_view(results@) + Seq::<SearchResultView>::empty() =~= results_view(
            results@,
        ));
        return false;
    }
    let needle: String = if case_sensitive {
        query.to_owned()
    } else {
        to_lowercase(query)
    };
    search_file(results, file, query, needle.as_str(), case_sensitive)
}

/// Searches the files for the query: file by file in the order of their
/// paths, line by line, every occurrence from left to right, overlapping
/// ones too. An empty query finds nothing. The search ends once
/// `MAX_RESULTS` results are found.
pub fn search_files(files: &Vec<MarkdownFile>, query: &str, case_sensitive: bool) -> (results: Vec<
    SearchResult,
>)
    ensures
        results_view(results@) == search_hits(
            files_view(files@),
            Query { text: query@, case_sensitive },
        ),
        results@.len() <= MAX_RESULTS,
{
    let mut results: Vec<SearchResult> = Vec::new();
    let ghost fv = files_view(files@);
    let ghost q = Query { text: query@, case_sensitive };
    if query.is_empty() {
        assert(results_view(results@) =~= Seq::<SearchResultView>::empty());
        return results;
    }
    let needle: String = if case_sensitive {
        query.to_owned()
    } else {
        to_lowercase(query)
    };
    let order = sort_by_path(files);
    let n = order.len();
    let mut k: usize = 0;
    assert(results_view(results@) =~= files_hits(fv, order@, q, 0));
    while k < n
        invariant
            fv == files_view(files@),
            q == (Query { text: query@, case_sensitive }),
            query@.len() > 0,
            encode_utf8(needle@) == search_form(query@, case_sensitive),
            order@ == path_order(fv),
            is_ordering(search_order(fv), files@.len(), order@),
            n == order@.len(),
            n == files@.len(),
            k <= n,
            results@.len() < MAX_RESULTS,
            results_view(results@) == files_hits(fv, order@, q, k as int),
        decreases n - k,
    {
        let ghost so_far = results_view(results@);
        proof {
            assert(order@.contains(order@[k as int]));
        }
        let file = &files[order[k]];
        let full = search_file(&mut results, file, query, needle.as_str(), case_sensitive);
        proof {
            let next = files_hits(fv, order@, q, k + 1);
            assert(file@ == fv[order@[k as int] as int]);
            assert(so_far + file_hits(file@, q) =~= next);
            if full {
                lemma_files_hits_grow(fv, order@, q, k + 1, n as int);
                lemma_capped_prefix(next, files_hits(fv, order@, q, n as int));
            }
        }
        if full {
            return results;
        }
        k = k + 1;
    }
    results
}

/// Whether `r` tells rightly if a folder is to be searched: an empty query
/// needs no search, whatever the folder is; any other query needs the
/// folder to be an existing directory, and is refused with `NotDirectory`
/// and the folder where it is none.
pub open spec fn is_search_check(
    folder: Seq<char>,
    is_dir: bool,
    query: Seq<char>,
    r: Result<bool, AppError>,
) -> bool {
    match r {
        Ok(wanted) => wanted == (query.len() > 0) && (is_dir || query.len() == 0),
        Err(e) => !is_dir && query.len() > 0 && e is NotDirectory && e.detail() == folder,
    }
}

/// Decides, before any file is read, whether a folder is to be searched:
/// `Ok(false)` for an empty query, `Ok(true)` for another query on an
/// existing directory, `NotDirectory` for another query on anything else.
pub fn check_search(folder: &str, is_dir: bool, query: &str) -> (r: Result<bool, AppError>)
    ensures
        is_search_check(folder@, is_dir, query@, r),
{
    if query.is_empty() {
        return Ok(false);
    }
    if !is_dir {
        return Err(AppError::NotDirectory(folder.to_owned()));
    }
    Ok(true)
}

/// Searches the markdown files of a folder; `is_dir` says whether the
/// folder is an existing directory. An empty query finds nothing; any other
/// query on a folder that is no directory fails with `NotDirectory`; else
/// the result is that of `search_files`.
pub fn search_folder(
    folder: &str,
    is_dir: bool,
    files: &Vec<MarkdownFile>,
    query: &str,
    case_sensitive: bool,
) -> (r: Result<Vec<SearchResult>, AppError>)
    ensures
        match r {
            Ok(found) => (is_dir || query@.len() == 0) && results_view(found@) == search_hits(
                files_view(files@),
                Query { text: query@, case_sensitive },
            ) && found@.len() <= MAX_RESULTS,
            Err(e) => !is_dir && query@.len() > 0 && e is NotDirectory && e.detail() == folder@,
        },
{
    match check_search(folder, is_dir, query) {
        Err(e) => Err(e),
        Ok(false) => {
            let found: Vec<SearchResult> = Vec::new();
            assert(results_view(found@) =~= Seq::<SearchResultView>::empty());
            Ok(found)
        },
        Ok(true) => Ok(search_files(files, query, case_sensitive)),
    }
}

/// An empty query finds nothing, whatever the files hold.
pub proof fn lemma_empty_query_finds_nothing(files: Seq<MarkdownFileView>, case_sensitive: bool)
    ensures
        search_hits(files, Query { text: Seq::empty(), case_sensitive }) == Seq::<
            SearchResultView,
        >::empty(),
{
}

/// A search returns the first results in the order of the search, never
/// more than `MAX_RESULTS`, and exactly that many where that many occur.
pub proof fn lemma_search_is_capped(files: Seq<MarkdownFileView>, query: Query)
    ensures
        search_hits(files, query).len() <= MAX_RESULTS,
        query.text.len() > 0 ==> is_prefix(
            search_hits(files, query),
            files_hits(files, path_order(files), query, files.len() as int),
        ),
        query.text.len() > 0 && files_hits(
            files,
            path_order(files),
            query,
            files.len() as int,
        ).len() >= MAX_RESULTS ==> search_hits(files, query).len() == MAX_RESULTS,
{
    let all = files_hits(files, path_order(files), query, files.len() as int);
    if query.text.len() > 0 {
        if all.len() > MAX_RESULTS {
            assert(all.take(MAX_RESULTS as int).take(MAX_RESULTS as int) =~= all.take(
                MAX_RESULTS as int,
            ));
        } else {
            lemma_prefix_reflexive(all);
        }
    }
}

} // verus!
