//! Byte-level text helpers shared by the other modules.
//!
//! Texts are Rust strings; the logic of this crate reads them as their UTF-8
//! bytes, `s.spec_bytes()`, and cuts them only at character boundaries.

use vstd::prelude::*;
use vstd::slice::*;
use vstd::string::*;
use vstd::utf8::*;

verus! {

/// The line feed byte.
pub const LF: u8 = 0x0a;

/// The carriage return byte.
pub const CR: u8 = 0x0d;

/// The dot.
pub const DOT: u8 = 0x2e;

/// The slash.
pub const SLASH: u8 = 0x2f;

/// Whether `b` is an ASCII byte, which in UTF-8 always stands for itself.
pub open spec fn is_ascii_byte(b: u8) -> bool {
    b < 0x80
}

/// In valid UTF-8 an ASCII byte begins a character and the next character
/// begins right behind it.
pub proof fn lemma_ascii_byte_boundaries(bytes: Seq<u8>, i: int)
    requires
        valid_utf8(bytes),
        0 <= i < bytes.len(),
        is_ascii_byte(bytes[i]),
    ensures
        is_char_boundary(bytes, i),
        is_char_boundary(bytes, i + 1),
    decreases bytes.len(),
{
    let b = bytes[i];
    assert(!is_continuation_byte(b) && is_leading_byte_width_1(b)) by (bit_vector)
        requires
            b < 0x80,
    ;
    is_char_boundary_iff_not_is_continuation_byte(bytes, i);
    if i == 0 {
        assert(length_of_first_scalar(bytes) == 1);
        assert(is_char_boundary(pop_first_scalar(bytes), 0));
        reveal_with_fuel(is_char_boundary, 2);
    } else {
        let n = length_of_first_scalar(bytes);
        let rest = pop_first_scalar(bytes);
        reveal_with_fuel(is_char_boundary, 2);
        assert(n <= i);
        assert(rest[i - n] == bytes[i]);
        lemma_ascii_byte_boundaries(rest, i - n);
    }
}

/// The part of `s` between two character boundaries, given as byte offsets.
pub fn slice_str<'a>(s: &'a str, from: usize, to: usize) -> (r: &'a str)
    requires
        from <= to <= s.spec_bytes().len(),
        is_char_boundary(s.spec_bytes(), from as int),
        is_char_boundary(s.spec_bytes(), to as int),
    ensures
        r.spec_bytes() == s.spec_bytes().subrange(from as int, to as int),
{
    broadcast use encode_utf8_valid_utf8;

    let ghost bytes = s.spec_bytes();
    let (head, _tail) = s.split_at(to);
    proof {
        valid_utf8_split(bytes, to as int);
        let hb = head.spec_bytes();
        assert(hb =~= bytes.subrange(0, to as int));
        if from < to {
            is_char_boundary_iff_not_is_continuation_byte(bytes, from as int);
            assert(hb[from as int] == bytes[from as int]);
            is_char_boundary_iff_not_is_continuation_byte(hb, from as int);
        } else {
            is_char_boundary_start_end_of_seq(hb);
        }
    }
    let (_skipped, r) = head.split_at(from);
    proof {
        assert(r.spec_bytes() =~= bytes.subrange(from as int, to as int));
    }
    r
}

/// Bytewise lexicographic order of the parts of `a` and `b` from `i` on.
pub open spec fn lex_le_from(a: Seq<u8>, b: Seq<u8>, i: int) -> bool
    decreases a.len() - i,
{
    if i < 0 || i >= a.len() {
        true
    } else if i >= b.len() {
        false
    } else if a[i] != b[i] {
        a[i] < b[i]
    } else {
        lex_le_from(a, b, i + 1)
    }
}

/// Bytewise lexicographic order, the order in which Rust compares strings:
/// the first differing byte decides, and a proper prefix comes first.
pub open spec fn lex_le(a: Seq<u8>, b: Seq<u8>) -> bool {
    lex_le_from(a, b, 0)
}

/// The two sequences agree on their first `i` places.
pub open spec fn same_prefix(a: Seq<u8>, b: Seq<u8>, i: int) -> bool {
    &&& 0 <= i <= a.len()
    &&& i <= b.len()
    &&& forall|k: int| 0 <= k < i ==> a[k] == b[k]
}

/// Of two byte sequences one comes first, from any offset on.
proof fn lemma_lex_le_from_total(a: Seq<u8>, b: Seq<u8>, i: int)
    requires
        0 <= i,
    ensures
        lex_le_from(a, b, i) || lex_le_from(b, a, i),
    decreases a.len() - i,
{
    if i < a.len() && i < b.len() && a[i] == b[i] {
        lemma_lex_le_from_total(a, b, i + 1);
    }
}

/// Two byte sequences that agree up to an offset and come before each
/// other from there on are the same.
proof fn lemma_lex_le_from_antisymmetric(a: Seq<u8>, b: Seq<u8>, i: int)
    requires
        same_prefix(a, b, i),
        lex_le_from(a, b, i),
        lex_le_from(b, a, i),
    ensures
        a == b,
    decreases a.len() - i,
{
    if i < a.len() && i < b.len() {
        lemma_lex_le_from_antisymmetric(a, b, i + 1);
    } else {
        assert(a =~= b);
    }
}

/// The lexicographic order from an offset on is transitive.
proof fn lemma_lex_le_from_transitive(a: Seq<u8>, b: Seq<u8>, c: Seq<u8>, i: int)
    requires
        0 <= i,
        same_prefix(a, b, i) || i >= a.len(),
        same_prefix(b, c, i) || i >= a.len(),
        lex_le_from(a, b, i),
        lex_le_from(b, c, i),
    ensures
        lex_le_from(a, c, i),
    decreases a.len() - i,
{
    if i < a.len() {
        if a[i] == b[i] && b[i] == c[i] {
            assert(same_prefix(a, b, i + 1) || i + 1 >= a.len());
            assert(same_prefix(b, c, i + 1) || i + 1 >= a.len());
            lemma_lex_le_from_transitive(a, b, c, i + 1);
        }
    }
}

/// The lexicographic order is a total order on byte sequences.
pub proof fn lemma_lex_le_total_order(a: Seq<u8>, b: Seq<u8>, c: Seq<u8>)
    ensures
        lex_le(a, a),
        lex_le(a, b) || lex_le(b, a),
        lex_le(a, b) && lex_le(b, a) ==> a == b,
        lex_le(a, b) && lex_le(b, c) ==> lex_le(a, c),
{
    lemma_lex_le_from_total(a, a, 0);
    lemma_lex_le_from_total(a, b, 0);
    if lex_le(a, b) && lex_le(b, a) {
        lemma_lex_le_from_antisymmetric(a, b, 0);
    }
    if lex_le(a, b) && lex_le(b, c) {
        lemma_lex_le_from_transitive(a, b, c, 0);
    }
}

/// Compares two byte strings lexicographically.
pub fn bytes_le(a: &[u8], b: &[u8]) -> (r: bool)
    ensures
        r == lex_le(a@, b@),
{
    let mut i: usize = 0;
    while i < a.len() && i < b.len() && a[i] == b[i]
        invariant
            same_prefix(a@, b@, i as int),
            lex_le(a@, b@) == lex_le_from(a@, b@, i as int),
        decreases a.len() - i,
    {
        i = i + 1;
    }
    if i >= a.len() {
        true
    } else if i >= b.len() {
        false
    } else {
        a[i] < b[i]
    }
}

/// Whether two byte strings hold the same bytes.
pub fn bytes_eq(a: &[u8], b: &[u8]) -> (r: bool)
    ensures
        r == (a@ == b@),
{
    if a.len() != b.len() {
        return false;
    }
    let mut i: usize = 0;
    while i < a.len()
        invariant
            a.len() == b.len(),
            same_prefix(a@, b@, i as int),
        decreases a.len() - i,
    {
        if a[i] != b[i] {
            return false;
        }
        i = i + 1;
    }
    assert(a@ =~= b@);
    true
}

/// Whether two texts are the same.
pub fn text_eq(a: &str, b: &str) -> (r: bool)
    ensures
        r == (a@ == b@),
{
    proof {
        encode_utf8_decode_utf8(a@);
        encode_utf8_decode_utf8(b@);
    }
    bytes_eq(a.as_bytes(), b.as_bytes())
}

/// Whether `needle` stands in `hay` at byte offset `i`.
pub open spec fn occurs_at(hay: Seq<u8>, needle: Seq<u8>, i: int) -> bool {
    &&& 0 <= i
    &&& i + needle.len() <= hay.len()
    &&& hay.subrange(i, i + needle.len()) == needle
}

/// Tests whether `needle` stands in `hay` at byte offset `i`.
pub fn occurs_at_offset(hay: &[u8], needle: &[u8], i: usize) -> (r: bool)
    ensures
        r == occurs_at(hay@, needle@, i as int),
{
    if i > hay.len() || needle.len() > hay.len() - i {
        return false;
    }
    let mut k: usize = 0;
    while k < needle.len()
        invariant
            i + needle.len() <= hay.len(),
            0 <= k <= needle.len(),
            forall|j: int| 0 <= j < k ==> hay@[i + j] == needle@[j],
        decreases needle.len() - k,
    {
        if hay[i + k] != needle[k] {
            assert(hay@.subrange(i as int, i + needle.len())[k as int] != needle@[k as int]);
            return false;
        }
        k = k + 1;
    }
    assert(hay@.subrange(i as int, i + needle.len()) =~= needle@);
    true
}

/// What a search for the first occurrence at or after `start` may answer:
/// the least such offset, or `None` where there is none.
pub open spec fn is_first_occurrence(
    hay: Seq<u8>,
    needle: Seq<u8>,
    start: int,
    found: Option<usize>,
) -> bool {
    match found {
        Some(p) => {
            &&& start <= p
            &&& occurs_at(hay, needle, p as int)
            &&& forall|q: int| start <= q < p ==> !occurs_at(hay, needle, q)
        },
        None => forall|q: int| start <= q ==> !occurs_at(hay, needle, q),
    }
}

/// Finds the first occurrence of `needle` in `hay` at or after `start`.
pub fn find_from(hay: &[u8], needle: &[u8], start: usize) -> (found: Option<usize>)
    ensures
        is_first_occurrence(hay@, needle@, start as int, found),
{
    if needle.len() > hay.len() {
        return None;
    }
    let last: usize = hay.len() - needle.len();
    let mut p: usize = start;
    while p <= last
        invariant
            last == hay.len() - needle.len(),
            start <= p,
            forall|q: int| start <= q < p ==> !occurs_at(hay@, needle@, q),
        decreases last + 1 - p,
    {
        if occurs_at_offset(hay, needle, p) {
            return Some(p);
        }
        if p == last {
            return None;
        }
        p = p + 1;
    }
    None
}

/// Whether `needle` occurs anywhere in `hay`.
pub open spec fn occurs_in(hay: Seq<u8>, needle: Seq<u8>) -> bool {
    exists|i: int| occurs_at(hay, needle, i)
}

/// Tests whether `needle` occurs anywhere in `hay`.
pub fn contains_bytes(hay: &[u8], needle: &[u8]) -> (r: bool)
    ensures
        r == occurs_in(hay@, needle@),
{
    match find_from(hay, needle, 0) {
        Some(p) => {
            assert(occurs_at(hay@, needle@, p as int));
            true
        },
        None => false,
    }
}

/// The offset of the first line feed at or after `start`, or the length of
/// `bytes` where none follows.
pub open spec fn line_end(bytes: Seq<u8>, start: int) -> int
    decreases bytes.len() - start,
{
    if start >= bytes.len() {
        bytes.len() as int
    } else if bytes[start] == LF {
        start
    } else {
        line_end(bytes, start + 1)
    }
}

/// The end of a line lies between its start and the end of the text, on a
/// line feed if inside the text, and no line feed stands before it.
pub proof fn lemma_line_end_bounds(bytes: Seq<u8>, start: int)
    requires
        0 <= start <= bytes.len(),
    ensures
        start <= line_end(bytes, start) <= bytes.len(),
        line_end(bytes, start) < bytes.len() ==> bytes[line_end(bytes, start)] == LF,
        forall|k: int| start <= k < line_end(bytes, start) ==> bytes[k] != LF,
    decreases bytes.len() - start,
{
    if start < bytes.len() && bytes[start] != LF {
        lemma_line_end_bounds(bytes, start + 1);
    }
}

/// The line that begins at `start` and runs up to `end`: without the
/// carriage return that stands right before a line feed at `end`.
pub open spec fn line_between(bytes: Seq<u8>, start: int, end: int) -> Seq<u8> {
    if end < bytes.len() && start < end && bytes[end - 1] == CR {
        bytes.subrange(start, end - 1)
    } else {
        bytes.subrange(start, end)
    }
}

/// The lines of the text from offset `start` on.
pub open spec fn lines_from(bytes: Seq<u8>, start: int) -> Seq<Seq<u8>>
    decreases bytes.len() - start,
{
    if start < 0 || start >= bytes.len() {
        Seq::empty()
    } else {
        let end = line_end(bytes, start);
        proof {
            lemma_line_end_bounds(bytes, start);
        }
        if end >= bytes.len() {
            seq![line_between(bytes, start, end)]
        } else {
            seq![line_between(bytes, start, end)] + lines_from(bytes, end + 1)
        }
    }
}

/// The lines of a text. A line ends at a line feed or at a carriage return
/// with a line feed right behind it; neither belongs to the line. The last
/// line needs no line ending, and an empty text has no line.
pub open spec fn lines_of(bytes: Seq<u8>) -> Seq<Seq<u8>> {
    lines_from(bytes, 0)
}

/// The UTF-8 bytes of each text of a list.
pub open spec fn texts_bytes(texts: Seq<String>) -> Seq<Seq<u8>> {
    texts.map_values(|t: String| encode_utf8(t@))
}

/// The texts of a list as sequences of characters.
pub open spec fn texts_view(texts: Seq<String>) -> Seq<Seq<char>> {
    texts.map_values(|t: String| t@)
}

/// The lines of a text, as texts.
pub open spec fn text_lines(content: Seq<char>) -> Seq<Seq<char>> {
    lines_of(encode_utf8(content)).map_values(|line: Seq<u8>| decode_utf8(line))
}

/// Splits a text into its lines.
pub fn split_lines(content: &str) -> (lines: Vec<String>)
    ensures
        texts_bytes(lines@) == lines_of(content.spec_bytes()),
        texts_view(lines@) == text_lines(content@),
{
    broadcast use encode_utf8_valid_utf8;

    let bytes = content.as_bytes();
    let n = bytes.len();
    let ghost all = content.spec_bytes();
    let mut lines: Vec<String> = Vec::new();
    let mut start: usize = 0;
    proof {
        is_char_boundary_start_end_of_seq(all);
        assert(texts_bytes(lines@) =~= Seq::<Seq<u8>>::empty());
    }
    while start < n
        invariant
            bytes@ == all,
            all == content.spec_bytes(),
            valid_utf8(all),
            n == all.len(),
            start <= n,
            is_char_boundary(all, start as int),
            lines_of(all) == texts_bytes(lines@) + lines_from(all, start as int),
        decreases n - start,
    {
        let mut end: usize = start;
        while end < n && bytes[end] != LF
            invariant
                bytes@ == all,
                n == all.len(),
                start <= end <= n,
                line_end(all, start as int) == line_end(all, end as int),
            decreases n - end,
        {
            end = end + 1;
        }
        let mut stop: usize = end;
        if end < n && start < end && bytes[end - 1] == CR {
            stop = end - 1;
        }
        proof {
            assert(line_end(all, start as int) == end);
            is_char_boundary_start_end_of_seq(all);
            if end < n {
                lemma_ascii_byte_boundaries(all, end as int);
            }
            if stop < end {
                lemma_ascii_byte_boundaries(all, stop as int);
            }
        }
        let line = slice_str(content, start, stop).to_owned();
        proof {
            assert(encode_utf8(line@) == line_between(all, start as int, end as int));
            assert(texts_bytes(lines@.push(line)) =~= texts_bytes(lines@).push(encode_utf8(line@)));
            assert(texts_bytes(lines@.push(line)) + lines_from(all, end + 1) =~= texts_bytes(
                lines@,
            ) + lines_from(all, start as int));
        }
        lines.push(line);
        if end < n {
            start = end + 1;
        } else {
            start = n;
            assert(lines_from(all, end + 1) =~= lines_from(all, n as int));
        }
    }
    proof {
        assert(lines_from(all, start as int) =~= Seq::<Seq<u8>>::empty());
        assert(texts_bytes(lines@) + Seq::<Seq<u8>>::empty() =~= texts_bytes(lines@));
        assert forall|i: int| 0 <= i < lines@.len() implies #[trigger] texts_view(lines@)[i]
            == text_lines(content@)[i] by {
            encode_utf8_decode_utf8(lines@[i]@);
            assert(texts_bytes(lines@)[i] == encode_utf8(lines@[i]@));
        }
        assert(texts_view(lines@) =~= text_lines(content@));
    }
    lines
}

/// The Unicode lowercase form of a text.
pub uninterp spec fn lowercase_of(s: Seq<char>) -> Seq<char>;

/// The Unicode uppercase form of a text.
pub uninterp spec fn uppercase_of(s: Seq<char>) -> Seq<char>;

/// Whether a character has the Unicode property `White_Space`: the
/// controls from tab to carriage return and the next-line control, the
/// space and the no-break spaces, the Ogham space mark, the spaces of fixed
/// width, the line and the paragraph separator, the medium mathematical
/// space and the ideographic space.
pub open spec fn is_white_space(c: char) -> bool {
    ||| '\u{9}' <= c <= '\u{d}'
    ||| c == ' '
    ||| c == '\u{85}'
    ||| c == '\u{a0}'
    ||| c == '\u{1680}'
    ||| '\u{2000}' <= c <= '\u{200a}'
    ||| c == '\u{2028}'
    ||| c == '\u{2029}'
    ||| c == '\u{202f}'
    ||| c == '\u{205f}'
    ||| c == '\u{3000}'
}

/// The first offset at or after `i` whose character is no whitespace, or
/// the length of `s`.
pub open spec fn skip_white_space(s: Seq<char>, i: int) -> int
    decreases s.len() - i,
{
    if 0 <= i < s.len() && is_white_space(s[i]) {
        skip_white_space(s, i + 1)
    } else {
        i
    }
}

/// The least offset at or before `j` with only whitespace between it and `j`.
pub open spec fn skip_white_space_back(s: Seq<char>, j: int) -> int
    decreases j,
{
    if 0 < j <= s.len() && is_white_space(s[j - 1]) {
        skip_white_space_back(s, j - 1)
    } else {
        j
    }
}

/// The text without the whitespace at its front and at its back.
pub open spec fn trimmed(s: Seq<char>) -> Seq<char> {
    let from = skip_white_space(s, 0);
    let to = skip_white_space_back(s, s.len() as int);
    if from >= s.len() {
        Seq::empty()
    } else {
        s.subrange(from, to)
    }
}

/// `str::to_lowercase`: the result is the lowercase form that Unicode
/// defines for the text, known here by name only.
#[verifier::external_body]
pub(crate) fn to_lowercase(s: &str) -> (r: String)
    ensures
        r@ == lowercase_of(s@),
{
    s.to_lowercase()
}

/// `str::to_uppercase`: the result is the uppercase form that Unicode
/// defines for the text, known here by name only.
#[verifier::external_body]
pub(crate) fn to_uppercase(s: &str) -> (r: String)
    ensures
        r@ == uppercase_of(s@),
{
    s.to_uppercase()
}

/// `char::is_whitespace`: whether the character has the Unicode property
/// `White_Space`, which is the set of characters that `is_white_space`
/// lists.
#[verifier::external_body]
pub(crate) fn is_whitespace(c: char) -> (r: bool)
    ensures
        r == is_white_space(c),
{
    c.is_whitespace()
}

/// The characters of a text.
pub fn chars_of(s: &str) -> (r: Vec<char>)
    ensures
        r@ == s@,
{
    let mut v: Vec<char> = Vec::new();
    for c in it: s.chars()
        invariant
            v@ == it.seq().take(it.index() as int),
            it.seq() == s@,
    {
        v.push(c);
    }
    v
}

/// Removes the whitespace at the front and at the back of a text.
pub fn trim(s: &str) -> (r: String)
    ensures
        r@ == trimmed(s@),
{
    let chars = chars_of(s);
    let n = chars.len();
    let mut from: usize = 0;
    while from < n && is_whitespace(chars[from])
        invariant
            chars@ == s@,
            n == chars.len(),
            from <= n,
            skip_white_space(s@, 0) == skip_white_space(s@, from as int),
        decreases n - from,
    {
        from = from + 1;
    }
    if from == n {
        return String::new();
    }
    let mut to: usize = n;
    while to > 0 && is_whitespace(chars[to - 1])
        invariant
            chars@ == s@,
            n == chars.len(),
            from < to <= n,
            !is_white_space(s@[from as int]),
            skip_white_space_back(s@, n as int) == skip_white_space_back(s@, to as int),
        decreases to,
    {
        to = to - 1;
    }
    s.substring_char(from, to).to_owned()
}

} // verus!
