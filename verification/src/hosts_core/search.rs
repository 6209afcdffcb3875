//! Find and replace in the texts of hosts entries.
//!
//! Patterns are compiled and matched by the `regex` crate; the library
//! turns the byte spans it reports into line and column positions, and
//! decides which entries are searched and which texts are rewritten.

use vstd::prelude::*;
use vstd::utf8::*;
use vstd::string::StringSliceAdditionalSpecFns;
use crate::error::HostzError;
use crate::hosts_core::content_parser::{content_of_hosts, get_content_of_hosts, flatten};
use crate::models::hosts::{FindItem, FindPosition, HostsContentObject, HostsListObject, HostsType};
use crate::text::to_owned_string;

verus! {

broadcast use {encode_utf8_valid_utf8, encode_utf8_decode_utf8};

// ---------------------------------------------------------------------
// Patterns, through the regex crate
// ---------------------------------------------------------------------

#[verifier::external_type_specification]
#[verifier::external_body]
pub struct ExRegex(regex::Regex);

/// Whether the regex crate accepts this pattern with this case setting.
pub uninterp spec fn regex_accepts(pattern: Seq<char>, case_insensitive: bool) -> bool;

/// The successive non-overlapping matches of a pattern in a text, as
/// byte offsets `(start, end)`, as the regex crate finds them.
pub uninterp spec fn regex_match_spans(pattern: Seq<char>, case_insensitive: bool, haystack: Seq<char>) -> Seq<(usize, usize)>;

/// A character with a meaning in regex syntax, as the regex crate lists
/// them (`regex_syntax::is_meta_character`).
pub open spec fn is_regex_meta(c: char) -> bool {
    c == '\\' || c == '.' || c == '+' || c == '*' || c == '?' || c == '(' || c == ')' || c == '|'
        || c == '[' || c == ']' || c == '{' || c == '}' || c == '^' || c == '$' || c == '#'
        || c == '&' || c == '-' || c == '~'
}

/// The pattern that matches exactly this text, as the regex crate writes
/// it: a backslash before each meta character, other characters as they
/// are.
pub open spec fn regex_escape(text: Seq<char>) -> Seq<char>
    decreases text.len(),
{
    if text.len() == 0 {
        Seq::empty()
    } else {
        let c = text.last();
        regex_escape(text.drop_last()) + if is_regex_meta(c) { seq!['\\', c] } else { seq![c] }
    }
}

/// The text with every match of the pattern replaced, `$` references in the
/// replacement expanded, as the regex crate computes it.
pub uninterp spec fn regex_replace_all(
    pattern: Seq<char>,
    case_insensitive: bool,
    haystack: Seq<char>,
    replacement: Seq<char>,
) -> Seq<char>;

/// A compiled find pattern.
pub struct SearchPattern {
    source: String,
    case_insensitive: bool,
    regex: regex::Regex,
}

impl SearchPattern {
    /// The pattern text the regex was compiled from.
    pub closed spec fn pattern_text(&self) -> Seq<char> {
        self.source@
    }

    /// Whether the regex ignores case.
    pub closed spec fn ignores_case(&self) -> bool {
        self.case_insensitive
    }
}

/// Compiles a pattern.
///
/// Trusted: calls `regex::RegexBuilder::new(..).case_insensitive(..).build()`.
/// The contract claims that it succeeds exactly on the patterns named by
/// `regex_accepts`, and keeps the pattern text and case setting with the
/// compiled regex; the error's text is left unsaid.
#[verifier::external_body]
fn compile_pattern(pattern: &str, case_insensitive: bool) -> (res: Result<SearchPattern, String>)
    ensures
        res is Ok <==> regex_accepts(pattern@, case_insensitive),
        res matches Ok(p) ==> p.pattern_text() == pattern@ && p.ignores_case() == case_insensitive,
{
    match regex::RegexBuilder::new(pattern).case_insensitive(case_insensitive).build() {
        Ok(regex) => Ok(SearchPattern { source: pattern.to_string(), case_insensitive, regex }),
        Err(e) => Err(e.to_string()),
    }
}

/// The byte spans of the matches of a compiled pattern in a text.
///
/// Trusted: calls `regex::Regex::find_iter` and keeps `start()` and `end()`
/// of each match. The contract names the result `regex_match_spans` of the
/// pattern text, the case setting and the text, and states what the crate
/// documents of every match: `start <= end`, both within the text and on
/// character boundaries, and each match ends before the next one starts.
#[verifier::external_body]
fn match_spans(p: &SearchPattern, haystack: &str) -> (res: Vec<(usize, usize)>)
    ensures
        res@ == regex_match_spans(p.pattern_text(), p.ignores_case(), haystack@),
        forall|i: int| 0 <= i < res@.len() ==> {
            &&& #[trigger] res@[i].0 <= res@[i].1
            &&& res@[i].1 <= haystack.spec_bytes().len()
            &&& is_char_boundary(haystack.spec_bytes(), res@[i].0 as int)
            &&& is_char_boundary(haystack.spec_bytes(), res@[i].1 as int)
        },
        forall|i: int, j: int| 0 <= i < j < res@.len() ==> #[trigger] res@[i].1 <= #[trigger] res@[j].0,
{
    p.regex.find_iter(haystack).map(|m| (m.start(), m.end())).collect()
}

/// A pattern that matches the text literally.
///
/// Trusted: calls `regex::escape`, which puts a backslash before each
/// regex meta character of the text (`regex_syntax::escape_into`); the
/// contract states that result as `regex_escape`.
#[verifier::external_body]
fn escape_text(text: &str) -> (res: String)
    ensures
        res@ == regex_escape(text@),
{
    regex::escape(text)
}

/// The text with every match replaced.
///
/// Trusted: calls `regex::Regex::replace_all` with a string replacement.
/// The contract names the result and states what the crate documents:
/// with no match, the text comes back unchanged.
#[verifier::external_body]
fn replace_matches(p: &SearchPattern, haystack: &str, replacement: &str) -> (res: String)
    ensures
        res@ == regex_replace_all(p.pattern_text(), p.ignores_case(), haystack@, replacement@),
        regex_match_spans(p.pattern_text(), p.ignores_case(), haystack@).len() == 0 ==> res@ == haystack@,
{
    p.regex.replace_all(haystack, replacement).to_string()
}

/// How to read a find query.
#[derive(Debug, Clone, Copy)]
pub struct FindOptions {
    /// The query is a regular expression; otherwise it is literal text.
    pub is_regexp: bool,
    /// Letters match regardless of case.
    pub is_ignore_case: bool,
}

impl Default for FindOptions {
    fn default() -> (res: Self)
        ensures
            !res.is_regexp,
            !res.is_ignore_case,
    {
        FindOptions { is_regexp: false, is_ignore_case: false }
    }
}

/// The pattern text for a query: the query itself for a regular
/// expression, else the query escaped so that it matches literally.
pub open spec fn query_pattern(query: Seq<char>, options: FindOptions) -> Seq<char> {
    if options.is_regexp {
        query
    } else {
        regex_escape(query)
    }
}

/// Compiles a find query.
pub fn build_search_pattern(query: &str, options: FindOptions) -> (res: Result<SearchPattern, HostzError>)
    ensures
        res is Ok <==> regex_accepts(query_pattern(query@, options), options.is_ignore_case),
        match res {
            Ok(p) => p.pattern_text() == query_pattern(query@, options)
                && p.ignores_case() == options.is_ignore_case,
            Err(e) => e is InvalidPattern,
        },
{
    let pattern = if options.is_regexp {
        to_owned_string(query)
    } else {
        escape_text(query)
    };
    match compile_pattern(pattern.as_str(), options.is_ignore_case) {
        Ok(p) => Ok(p),
        Err(message) => Err(HostzError::InvalidPattern { message }),
    }
}

// ---------------------------------------------------------------------
// Positions of matches, in bytes and lines
// ---------------------------------------------------------------------

/// The number of newline bytes among the first `k` bytes.
pub open spec fn newline_count(b: Seq<u8>, k: int) -> nat
    decreases k,
{
    if k <= 0 || k > b.len() {
        0
    } else {
        newline_count(b, k - 1) + if b[k - 1] == 10u8 { 1nat } else { 0nat }
    }
}

/// Where the line that holds byte offset `k` starts: just after the last
/// newline among the first `k` bytes, or 0.
pub open spec fn line_start_at(b: Seq<u8>, k: int) -> int
    decreases k,
{
    if k <= 0 || k > b.len() {
        0
    } else if b[k - 1] == 10u8 {
        k
    } else {
        line_start_at(b, k - 1)
    }
}

/// The offset of the first newline at or after `from`, or the length.
pub open spec fn next_newline(b: Seq<u8>, from: int) -> int
    decreases b.len() - from,
{
    if from < 0 || from >= b.len() {
        b.len() as int
    } else if b[from] == 10u8 {
        from
    } else {
        next_newline(b, from + 1)
    }
}

/// An offset limited to the length of the text.
pub open spec fn within(b: Seq<u8>, k: int) -> int {
    if k < b.len() { k } else { b.len() as int }
}

/// The 1-based number of the line that holds offset `k` (a text has fewer
/// than `usize::MAX` newlines in any memory; the bound keeps the value a
/// `usize`).
pub open spec fn line_number(b: Seq<u8>, k: int) -> int {
    let n = newline_count(b, within(b, k));
    if n < usize::MAX { n + 1int } else { n as int }
}

/// The text between two byte offsets; empty unless both are character
/// boundaries in order within the text.
pub open spec fn text_between(b: Seq<u8>, from: int, to: int) -> Seq<char> {
    if 0 <= from <= to <= b.len() && is_char_boundary(b, from) && is_char_boundary(b, to) {
        decode_utf8(b.subrange(from, to))
    } else {
        Seq::empty()
    }
}

/// A match position, as mathematical values.
pub struct FindPositionView {
    pub start: int,
    pub end: int,
    pub line: int,
    pub line_pos: int,
    pub end_line: int,
    pub end_line_pos: int,
    pub before: Seq<char>,
    pub matched: Seq<char>,
    pub after: Seq<char>,
}

impl View for FindPosition {
    type V = FindPositionView;

    open spec fn view(&self) -> FindPositionView {
        FindPositionView {
            start: self.start as int,
            end: self.end as int,
            line: self.line as int,
            line_pos: self.line_pos as int,
            end_line: self.end_line as int,
            end_line_pos: self.end_line_pos as int,
            before: self.before@,
            matched: self.matched@,
            after: self.after@,
        }
    }
}

/// The position of the match `start..end` in a text of bytes `b`.
///
/// `line` and `end_line` are the 1-based lines that hold `start` and `end`;
/// `line_pos` and `end_line_pos` their byte offsets within those lines.
/// `before` is the text of the first line before the match and `after` the
/// text after the match up to the end of the line where the match ends.
pub open spec fn position_of_match(b: Seq<u8>, start: int, end: int) -> FindPositionView {
    let ls = line_start_at(b, within(b, start));
    let els = line_start_at(b, within(b, end));
    let line_end = next_newline(b, ls);
    FindPositionView {
        start,
        end,
        line: line_number(b, start),
        line_pos: start - ls,
        end_line: line_number(b, end),
        end_line_pos: end - els,
        before: text_between(b, ls, start),
        matched: text_between(b, start, end),
        after: if end <= line_end {
            text_between(b, end, line_end)
        } else {
            text_between(b, end, next_newline(b, els))
        },
    }
}

/// The text between two byte offsets of a string slice.
///
/// Trusted: calls `str::get` with the range `from..to`, which is `None`
/// exactly when slicing there would panic: an offset past the end, `from`
/// after `to`, or an offset inside a character.
#[verifier::external_body]
fn slice_between(s: &str, from: usize, to: usize) -> (res: Option<&str>)
    ensures
        res is Some <==> (from <= to <= s.spec_bytes().len()
            && is_char_boundary(s.spec_bytes(), from as int)
            && is_char_boundary(s.spec_bytes(), to as int)),
        res matches Some(t) ==> t.spec_bytes() == s.spec_bytes().subrange(from as int, to as int),
{
    s.get(from..to)
}

/// The text between two byte offsets, empty when they do not delimit text.
fn text_at(s: &str, from: usize, to: usize) -> (res: String)
    ensures
        res@ == text_between(s.spec_bytes(), from as int, to as int),
{
    match slice_between(s, from, to) {
        Some(t) => {
            proof {
                assert(decode_utf8(encode_utf8(t@)) == t@);
            }
            to_owned_string(t)
        },
        None => String::new(),
    }
}

proof fn lemma_newline_count_bound(b: Seq<u8>, k: int)
    requires
        0 <= k <= b.len(),
    ensures
        newline_count(b, k) <= k,
        0 <= line_start_at(b, k) <= k,
    decreases k,
{
    if k > 0 {
        lemma_newline_count_bound(b, k - 1);
    }
}

/// Counts newlines up to offset `k` (limited to the length), starting
/// from a count already made up to `pos` when `pos <= k`.
fn scan_lines(b: &[u8], pos: usize, count: usize, last: usize, k: usize) -> (res: (usize, usize, usize))
    requires
        pos <= b@.len(),
        count == newline_count(b@, pos as int),
        last == line_start_at(b@, pos as int),
    ensures
        res.0 == within(b@, k as int),
        res.1 == newline_count(b@, res.0 as int),
        res.2 == line_start_at(b@, res.0 as int),
{
    let n = b.len();
    let target = if k < n { k } else { n };
    let (mut p, mut c, mut l) = if pos <= target { (pos, count, last) } else { (0, 0, 0) };
    while p < target
        invariant
            n == b@.len(),
            target <= n,
            p <= target,
            c == newline_count(b@, p as int),
            l == line_start_at(b@, p as int),
        decreases target - p,
    {
        proof { lemma_newline_count_bound(b@, p as int); }
        if b[p] == 10u8 {
            c = c + 1;
            l = p + 1;
        }
        p = p + 1;
    }
    (p, c, l)
}

/// The offset of the first newline at or after `from`, or the length.
fn find_newline(b: &[u8], from: usize) -> (res: usize)
    ensures
        res == next_newline(b@, from as int),
{
    let n = b.len();
    let mut p = from;
    if p >= n {
        return n;
    }
    while p < n
        invariant
            n == b@.len(),
            from <= p <= n,
            next_newline(b@, from as int) == next_newline(b@, p as int),
        decreases n - p,
    {
        if b[p] == 10u8 {
            return p;
        }
        p = p + 1;
    }
    n
}

/// The positions of the given byte spans in a text, one for each span, in
/// the same order.
pub fn positions_from_spans(content: &str, spans: &Vec<(usize, usize)>) -> (res: Vec<FindPosition>)
    ensures
        res@.len() == spans@.len(),
        forall|i: int| 0 <= i < spans@.len() ==> #[trigger] res@[i]@ == position_of_match(
            content.spec_bytes(), spans@[i].0 as int, spans@[i].1 as int),
{
    let b = content.as_bytes();
    let mut res: Vec<FindPosition> = Vec::new();
    let m = spans.len();
    let (mut pos, mut count, mut last): (usize, usize, usize) = (0, 0, 0);
    let mut i: usize = 0;
    while i < m
        invariant
            m == spans@.len(),
            i <= m,
            b@ == content.spec_bytes(),
            pos <= b@.len(),
            count == newline_count(b@, pos as int),
            last == line_start_at(b@, pos as int),
            res@.len() == i,
            forall|j: int| 0 <= j < i ==> #[trigger] res@[j]@ == position_of_match(
                content.spec_bytes(), spans@[j].0 as int, spans@[j].1 as int),
        decreases m - i,
    {
        let (start, end) = spans[i];
        let (p1, c1, l1) = scan_lines(b, pos, count, last, start);
        let (p2, c2, l2) = scan_lines(b, p1, c1, l1, end);
        proof {
            lemma_newline_count_bound(b@, p1 as int);
            lemma_newline_count_bound(b@, p2 as int);
        }
        pos = p2;
        count = c2;
        last = l2;
        let line = if c1 < usize::MAX { c1 + 1 } else { c1 };
        let end_line = if c2 < usize::MAX { c2 + 1 } else { c2 };
        let line_end = find_newline(b, l1);
        let before = text_at(content, l1, start);
        let matched = text_at(content, start, end);
        let after = if end <= line_end {
            text_at(content, end, line_end)
        } else {
            let last_line_end = find_newline(b, l2);
            text_at(content, end, last_line_end)
        };
        let fp = FindPosition {
            start,
            end,
            line,
            line_pos: start - l1,
            end_line,
            end_line_pos: end - l2,
            before,
            matched,
            after,
        };
        res.push(fp);
        i = i + 1;
    }
    res
}

/// The positions of the matches of a pattern in a text.
pub fn find_positions_in_content(content: &str, pattern: &SearchPattern) -> (res: Vec<FindPosition>)
    ensures
        res@.len() == regex_match_spans(pattern.pattern_text(), pattern.ignores_case(), content@).len(),
        forall|i: int| 0 <= i < res@.len() ==> #[trigger] res@[i]@ == position_of_match(
            content.spec_bytes(),
            regex_match_spans(pattern.pattern_text(), pattern.ignores_case(), content@)[i].0 as int,
            regex_match_spans(pattern.pattern_text(), pattern.ignores_case(), content@)[i].1 as int),
{
    let spans = match_spans(pattern, content);
    positions_from_spans(content, &spans)
}

// ---------------------------------------------------------------------
// Replacing
// ---------------------------------------------------------------------

/// The text with the bytes `start..end` replaced by `replacement`.
///
/// Both offsets must lie within the text on character boundaries, as
/// slicing the text there requires. With `start > end` the bytes between
/// them appear twice, as the two slices overlap.
pub fn replace_one(content: &str, start: usize, end: usize, replacement: &str) -> (res: String)
    requires
        start <= content.spec_bytes().len(),
        end <= content.spec_bytes().len(),
        is_char_boundary(content.spec_bytes(), start as int),
        is_char_boundary(content.spec_bytes(), end as int),
    ensures
        res@ == text_between(content.spec_bytes(), 0, start as int) + replacement@
            + text_between(content.spec_bytes(), end as int, content.spec_bytes().len() as int),
{
    let ghost b = content.spec_bytes();
    proof {
        is_char_boundary_start_end_of_seq(b);
    }
    let (head, _) = content.split_at(start);
    let (_, tail) = content.split_at(end);
    proof {
        assert(decode_utf8(encode_utf8(head@)) == head@);
        assert(decode_utf8(encode_utf8(tail@)) == tail@);
    }
    let mut res = to_owned_string(head);
    crate::text::push_str(&mut res, replacement);
    crate::text::push_str(&mut res, tail);
    res
}

/// The text with every match of the pattern replaced by `replacement`,
/// `$` references to groups expanded.
pub fn replace_all(content: &str, pattern: &SearchPattern, replacement: &str) -> (res: String)
    ensures
        res@ == regex_replace_all(pattern.pattern_text(), pattern.ignores_case(), content@, replacement@),
        regex_match_spans(pattern.pattern_text(), pattern.ignores_case(), content@).len() == 0 ==> res@ == content@,
{
    replace_matches(pattern, content, replacement)
}

// ---------------------------------------------------------------------
// Finding in all entries
// ---------------------------------------------------------------------

/// The matches in one entry, as mathematical values.
pub struct FindItemView {
    pub item_id: Seq<char>,
    pub item_title: Seq<char>,
    pub item_type: HostsType,
    pub positions: Seq<FindPositionView>,
}

impl View for FindItem {
    type V = FindItemView;

    open spec fn view(&self) -> FindItemView {
        FindItemView {
            item_id: self.item_id@,
            item_title: self.item_title@,
            item_type: self.item_type,
            positions: self.positions@.map_values(|p: FindPosition| p@),
        }
    }
}

/// The positions of the given spans in a text.
pub open spec fn positions_of(text: Seq<char>, spans: Seq<(usize, usize)>) -> Seq<FindPositionView> {
    Seq::new(spans.len(), |i: int| position_of_match(encode_utf8(text), spans[i].0 as int, spans[i].1 as int))
}

/// The find results among the first `k` entries of the list: for each
/// local or remote entry whose text is not empty and holds a match, its
/// id, title, kind and match positions.
pub open spec fn find_results(
    list: Seq<HostsListObject>,
    contents: Seq<HostsContentObject>,
    pattern: Seq<char>,
    case_insensitive: bool,
    k: nat,
) -> Seq<FindItemView>
    decreases k,
{
    if k == 0 || k > list.len() {
        Seq::empty()
    } else {
        let prev = find_results(list, contents, pattern, case_insensitive, (k - 1) as nat);
        let item = list[k - 1];
        if item.type_ == HostsType::Group {
            prev
        } else {
            match content_of_hosts(list, contents, item.id@) {
                None => prev,
                Some(t) => {
                    let spans = regex_match_spans(pattern, case_insensitive, t);
                    if t.len() == 0 || spans.len() == 0 {
                        prev
                    } else {
                        prev.push(FindItemView {
                            item_id: item.id@,
                            item_title: item.title@,
                            item_type: item.type_,
                            positions: positions_of(t, spans),
                        })
                    }
                },
            }
        }
    }
}

/// `r` reports entry `j` of the list: a local or remote entry whose text is
/// not empty and holds matches, with its id, title and kind, and one
/// position per match, in the order of the matches.
pub open spec fn reports_entry(
    list: Seq<HostsListObject>,
    contents: Seq<HostsContentObject>,
    pattern: Seq<char>,
    case_insensitive: bool,
    r: FindItemView,
    j: int,
) -> bool {
    &&& 0 <= j < list.len()
    &&& list[j].type_ != HostsType::Group
    &&& r.item_id == list[j].id@
    &&& r.item_title == list[j].title@
    &&& r.item_type == list[j].type_
    &&& match content_of_hosts(list, contents, list[j].id@) {
        Some(t) => {
            let spans = regex_match_spans(pattern, case_insensitive, t);
            &&& t.len() > 0
            &&& spans.len() > 0
            &&& r.positions.len() == spans.len()
            &&& forall|p: int| 0 <= p < spans.len() ==> #[trigger] r.positions[p]
                == position_of_match(encode_utf8(t), spans[p].0 as int, spans[p].1 as int)
        },
        None => false,
    }
}

/// The entry has a text that is not empty and holds matches.
pub open spec fn entry_has_matches(
    list: Seq<HostsListObject>,
    contents: Seq<HostsContentObject>,
    pattern: Seq<char>,
    case_insensitive: bool,
    j: int,
) -> bool {
    &&& list[j].type_ != HostsType::Group
    &&& content_of_hosts(list, contents, list[j].id@) matches Some(t)
        && t.len() > 0 && regex_match_spans(pattern, case_insensitive, t).len() > 0
}

/// The positions, among the first `k` entries, of those whose text holds
/// matches, in list order.
pub open spec fn entries_with_matches(
    list: Seq<HostsListObject>,
    contents: Seq<HostsContentObject>,
    pattern: Seq<char>,
    case_insensitive: bool,
    k: nat,
) -> Seq<int>
    decreases k,
{
    if k == 0 || k > list.len() {
        Seq::empty()
    } else {
        let prev = entries_with_matches(list, contents, pattern, case_insensitive, (k - 1) as nat);
        if entry_has_matches(list, contents, pattern, case_insensitive, k - 1) {
            prev.push(k - 1)
        } else {
            prev
        }
    }
}

proof fn lemma_find_results_prefix(
    list: Seq<HostsListObject>,
    contents: Seq<HostsContentObject>,
    pattern: Seq<char>,
    case_insensitive: bool,
    k: nat,
)
    requires
        k <= list.len(),
    ensures
        ({
            let res = find_results(list, contents, pattern, case_insensitive, k);
            let src = entries_with_matches(list, contents, pattern, case_insensitive, k);
            &&& res.len() == src.len()
            &&& forall|r: int| 0 <= r < res.len() ==> 0 <= #[trigger] src[r] < k
            &&& forall|r: int| 0 <= r < res.len() ==> #[trigger] reports_entry(list, contents, pattern, case_insensitive, res[r], src[r])
            &&& forall|r1: int, r2: int| 0 <= r1 < r2 < src.len() ==> #[trigger] src[r1] < #[trigger] src[r2]
            &&& forall|j: int| 0 <= j < k ==> (#[trigger] entry_has_matches(list, contents, pattern, case_insensitive, j)
                <==> src.contains(j))
        }),
    decreases k,
{
    if k > 0 {
        lemma_find_results_prefix(list, contents, pattern, case_insensitive, (k - 1) as nat);
        let prev = find_results(list, contents, pattern, case_insensitive, (k - 1) as nat);
        let psrc = entries_with_matches(list, contents, pattern, case_insensitive, (k - 1) as nat);
        let res = find_results(list, contents, pattern, case_insensitive, k);
        let src = entries_with_matches(list, contents, pattern, case_insensitive, k);
        let j0 = k - 1;
        if entry_has_matches(list, contents, pattern, case_insensitive, j0) {
            let t = content_of_hosts(list, contents, list[j0].id@)->0;
            let spans = regex_match_spans(pattern, case_insensitive, t);
            let r0 = res[prev.len() as int];
            assert(res == prev.push(r0));
            assert(src == psrc.push(j0));
            assert(r0.positions =~= positions_of(t, spans));
            assert(reports_entry(list, contents, pattern, case_insensitive, r0, j0));
            assert forall|r: int| 0 <= r < res.len() implies #[trigger] reports_entry(list, contents, pattern, case_insensitive, res[r], src[r]) by {
                if r < prev.len() {
                    assert(res[r] == prev[r]);
                    assert(src[r] == psrc[r]);
                }
            }
            assert forall|r: int| 0 <= r < res.len() implies 0 <= #[trigger] src[r] < k by {
                if r < prev.len() {
                    assert(src[r] == psrc[r]);
                }
            }
            assert forall|r1: int, r2: int| 0 <= r1 < r2 < src.len() implies #[trigger] src[r1] < #[trigger] src[r2] by {
                assert(src[r1] == psrc[r1]);
                if r2 < psrc.len() {
                    assert(src[r2] == psrc[r2]);
                }
            }
            assert forall|j: int| 0 <= j < k implies (#[trigger] entry_has_matches(list, contents, pattern, case_insensitive, j)
                <==> src.contains(j)) by {
                if j < k - 1 {
                    if src.contains(j) {
                        let r = choose|r: int| 0 <= r < src.len() && src[r] == j;
                        if r < psrc.len() {
                            assert(psrc[r] == j);
                        }
                    }
                    if psrc.contains(j) {
                        let r = choose|r: int| 0 <= r < psrc.len() && psrc[r] == j;
                        assert(src[r] == j);
                    }
                } else {
                    assert(src[psrc.len() as int] == j);
                }
            }
        } else {
            assert(res == prev);
            assert(src == psrc);
            assert forall|j: int| 0 <= j < k implies (#[trigger] entry_has_matches(list, contents, pattern, case_insensitive, j)
                <==> src.contains(j)) by {
                if j == k - 1 && src.contains(j) {
                    let r = choose|r: int| 0 <= r < src.len() && src[r] == j;
                }
            }
        }
    }
}

/// A find reports exactly the local and remote entries whose text is not
/// empty and holds matches, in list order: the `r`-th result reports the
/// `r`-th such entry with its id, title and kind and one position per
/// match of the pattern in its text, the `p`-th position being that of the
/// `p`-th match.
pub proof fn lemma_find_reports_every_match(
    list: Seq<HostsListObject>,
    contents: Seq<HostsContentObject>,
    pattern: Seq<char>,
    case_insensitive: bool,
)
    ensures
        ({
            let res = find_results(list, contents, pattern, case_insensitive, list.len());
            let src = entries_with_matches(list, contents, pattern, case_insensitive, list.len());
            &&& res.len() == src.len()
            &&& forall|r: int| 0 <= r < res.len() ==> #[trigger] reports_entry(list, contents, pattern, case_insensitive, res[r], src[r])
            &&& forall|r1: int, r2: int| 0 <= r1 < r2 < src.len() ==> #[trigger] src[r1] < #[trigger] src[r2]
            &&& forall|j: int| 0 <= j < list.len() ==> (#[trigger] entry_has_matches(list, contents, pattern, case_insensitive, j)
                <==> src.contains(j))
        }),
{
    lemma_find_results_prefix(list, contents, pattern, case_insensitive, list.len());
}

/// Finds a query in the texts of all local and remote entries.
pub fn find_by(
    list: &[HostsListObject],
    contents: &[HostsContentObject],
    query: &str,
    options: FindOptions,
) -> (res: Result<Vec<FindItem>, HostzError>)
    ensures
        res is Ok <==> regex_accepts(query_pattern(query@, options), options.is_ignore_case),
        match res {
            Ok(items) => items@.map_values(|f: FindItem| f@) == find_results(
                list@, contents@, query_pattern(query@, options), options.is_ignore_case, list@.len()),
            Err(e) => e is InvalidPattern,
        },
{
    let pattern = build_search_pattern(query, options)?;
    let ghost pat = query_pattern(query@, options);
    let ghost ci = options.is_ignore_case;
    let flat = flatten(list);
    let mut results: Vec<FindItem> = Vec::new();
    let n = flat.len();
    let mut k: usize = 0;
    while k < n
        invariant
            n == list@.len(),
            n == flat@.len(),
            forall|i: int| 0 <= i < n ==> *flat@[i] == list@[i],
            k <= n,
            pattern.pattern_text() == pat,
            pattern.ignores_case() == ci,
            results@.map_values(|f: FindItem| f@) == find_results(list@, contents@, pat, ci, k as nat),
        decreases n - k,
    {
        let item = flat[k];
        if item.type_ != HostsType::Local && item.type_ != HostsType::Remote {
            k = k + 1;
            continue;
        }
        let content = match get_content_of_hosts(list, contents, item.id.as_str()) {
            Ok(c) => c,
            Err(_) => {
                k = k + 1;
                continue;
            },
        };
        if content.as_str().is_empty() {
            k = k + 1;
            continue;
        }
        let positions = find_positions_in_content(content.as_str(), &pattern);
        if positions.len() > 0 {
            let ghost before = results@;
            let fi = FindItem {
                item_id: item.id.clone(),
                item_title: item.title.clone(),
                item_type: item.type_,
                positions,
            };
            proof {
                assert(fi@.positions =~= positions_of(content@,
                    regex_match_spans(pat, ci, content@)));
            }
            results.push(fi);
            assert(results@.map_values(|f: FindItem| f@) =~= before.map_values(|f: FindItem| f@).push(fi@));
        }
        k = k + 1;
    }
    Ok(results)
}

/// The new texts of a replace-all among the first `k` entries: each local
/// entry whose text holds a match gets its text with every match replaced.
pub open spec fn replace_plan(
    list: Seq<HostsListObject>,
    contents: Seq<HostsContentObject>,
    pattern: Seq<char>,
    case_insensitive: bool,
    replacement: Seq<char>,
    k: nat,
) -> Seq<(Seq<char>, Seq<char>)>
    decreases k,
{
    if k == 0 || k > list.len() {
        Seq::empty()
    } else {
        let prev = replace_plan(list, contents, pattern, case_insensitive, replacement, (k - 1) as nat);
        let item = list[k - 1];
        if item.type_ != HostsType::Local {
            prev
        } else {
            match content_of_hosts(list, contents, item.id@) {
                None => prev,
                Some(t) => {
                    if regex_match_spans(pattern, case_insensitive, t).len() == 0 {
                        prev
                    } else {
                        prev.push((item.id@, regex_replace_all(pattern, case_insensitive, t, replacement)))
                    }
                },
            }
        }
    }
}

/// Entry `j` is a local entry whose text holds a match.
pub open spec fn entry_needs_rewrite(
    list: Seq<HostsListObject>,
    contents: Seq<HostsContentObject>,
    pattern: Seq<char>,
    case_insensitive: bool,
    j: int,
) -> bool {
    &&& list[j].type_ == HostsType::Local
    &&& content_of_hosts(list, contents, list[j].id@) matches Some(t)
        && regex_match_spans(pattern, case_insensitive, t).len() > 0
}

/// `w` rewrites entry `j`: a local entry whose text holds a match, under
/// its id, with every match replaced.
pub open spec fn rewrites_entry(
    list: Seq<HostsListObject>,
    contents: Seq<HostsContentObject>,
    pattern: Seq<char>,
    case_insensitive: bool,
    replacement: Seq<char>,
    w: (Seq<char>, Seq<char>),
    j: int,
) -> bool {
    &&& 0 <= j < list.len()
    &&& list[j].type_ == HostsType::Local
    &&& w.0 == list[j].id@
    &&& match content_of_hosts(list, contents, list[j].id@) {
        Some(t) => regex_match_spans(pattern, case_insensitive, t).len() > 0
            && w.1 == regex_replace_all(pattern, case_insensitive, t, replacement),
        None => false,
    }
}

/// The positions, among the first `k` entries, of the local entries whose
/// text holds a match, in list order.
pub open spec fn entries_to_rewrite(
    list: Seq<HostsListObject>,
    contents: Seq<HostsContentObject>,
    pattern: Seq<char>,
    case_insensitive: bool,
    k: nat,
) -> Seq<int>
    decreases k,
{
    if k == 0 || k > list.len() {
        Seq::empty()
    } else {
        let prev = entries_to_rewrite(list, contents, pattern, case_insensitive, (k - 1) as nat);
        if entry_needs_rewrite(list, contents, pattern, case_insensitive, k - 1) {
            prev.push(k - 1)
        } else {
            prev
        }
    }
}

proof fn lemma_replace_plan_prefix(
    list: Seq<HostsListObject>,
    contents: Seq<HostsContentObject>,
    pattern: Seq<char>,
    case_insensitive: bool,
    replacement: Seq<char>,
    k: nat,
)
    requires
        k <= list.len(),
    ensures
        ({
            let plan = replace_plan(list, contents, pattern, case_insensitive, replacement, k);
            let src = entries_to_rewrite(list, contents, pattern, case_insensitive, k);
            &&& plan.len() == src.len()
            &&& forall|r: int| 0 <= r < plan.len() ==> 0 <= #[trigger] src[r] < k
            &&& forall|r: int| 0 <= r < plan.len() ==> #[trigger] rewrites_entry(list, contents, pattern,
                case_insensitive, replacement, plan[r], src[r])
            &&& forall|r1: int, r2: int| 0 <= r1 < r2 < src.len() ==> #[trigger] src[r1] < #[trigger] src[r2]
            &&& forall|j: int| 0 <= j < k ==> (#[trigger] entry_needs_rewrite(list, contents, pattern, case_insensitive, j)
                <==> src.contains(j))
        }),
    decreases k,
{
    if k > 0 {
        lemma_replace_plan_prefix(list, contents, pattern, case_insensitive, replacement, (k - 1) as nat);
        let prev = replace_plan(list, contents, pattern, case_insensitive, replacement, (k - 1) as nat);
        let psrc = entries_to_rewrite(list, contents, pattern, case_insensitive, (k - 1) as nat);
        let plan = replace_plan(list, contents, pattern, case_insensitive, replacement, k);
        let src = entries_to_rewrite(list, contents, pattern, case_insensitive, k);
        let j0 = k - 1;
        if entry_needs_rewrite(list, contents, pattern, case_insensitive, j0) {
            let w0 = plan[prev.len() as int];
            assert(plan == prev.push(w0));
            assert(src == psrc.push(j0));
            assert(rewrites_entry(list, contents, pattern, case_insensitive, replacement, w0, j0));
            assert forall|r: int| 0 <= r < plan.len() implies #[trigger] rewrites_entry(list, contents, pattern,
                case_insensitive, replacement, plan[r], src[r]) by {
                if r < prev.len() {
                    assert(plan[r] == prev[r]);
                    assert(src[r] == psrc[r]);
                }
            }
            assert forall|r: int| 0 <= r < plan.len() implies 0 <= #[trigger] src[r] < k by {
                if r < prev.len() {
                    assert(src[r] == psrc[r]);
                }
            }
            assert forall|r1: int, r2: int| 0 <= r1 < r2 < src.len() implies #[trigger] src[r1] < #[trigger] src[r2] by {
                assert(src[r1] == psrc[r1]);
                if r2 < psrc.len() {
                    assert(src[r2] == psrc[r2]);
                }
            }
            assert forall|j: int| 0 <= j < k implies (#[trigger] entry_needs_rewrite(list, contents, pattern, case_insensitive, j)
                <==> src.contains(j)) by {
                if j < k - 1 {
                    if src.contains(j) {
                        let r = choose|r: int| 0 <= r < src.len() && src[r] == j;
                        if r < psrc.len() {
                            assert(psrc[r] == j);
                        }
                    }
                    if psrc.contains(j) {
                        let r = choose|r: int| 0 <= r < psrc.len() && psrc[r] == j;
                        assert(src[r] == j);
                    }
                } else {
                    assert(src[psrc.len() as int] == j);
                }
            }
        } else {
            assert(plan == prev);
            assert(src == psrc);
            assert forall|j: int| 0 <= j < k implies (#[trigger] entry_needs_rewrite(list, contents, pattern, case_insensitive, j)
                <==> src.contains(j)) by {
                if j == k - 1 && src.contains(j) {
                    let r = choose|r: int| 0 <= r < src.len() && src[r] == j;
                }
            }
        }
    }
}

/// A replace-all writes exactly the local entries whose text holds a match,
/// in list order, each under its id with every match replaced; entries
/// without a match, and entries that are not local, are not written, and
/// the count (the plan's length) is the number of entries written.
pub proof fn lemma_replace_writes_only_matching(
    list: Seq<HostsListObject>,
    contents: Seq<HostsContentObject>,
    pattern: Seq<char>,
    case_insensitive: bool,
    replacement: Seq<char>,
)
    ensures
        ({
            let plan = replace_plan(list, contents, pattern, case_insensitive, replacement, list.len());
            let src = entries_to_rewrite(list, contents, pattern, case_insensitive, list.len());
            &&& plan.len() == src.len()
            &&& forall|r: int| 0 <= r < plan.len() ==> #[trigger] rewrites_entry(list, contents, pattern,
                case_insensitive, replacement, plan[r], src[r])
            &&& forall|r1: int, r2: int| 0 <= r1 < r2 < src.len() ==> #[trigger] src[r1] < #[trigger] src[r2]
            &&& forall|j: int| 0 <= j < list.len() ==> (#[trigger] entry_needs_rewrite(list, contents, pattern,
                case_insensitive, j) <==> src.contains(j))
        }),
{
    lemma_replace_plan_prefix(list, contents, pattern, case_insensitive, replacement, list.len());
}

/// Replaces every match of a query in the texts of all local entries.
///
/// Returns the new texts to store, one per entry whose text held a match,
/// in list order, and the number of those entries.
pub fn find_and_replace_all(
    list: &[HostsListObject],
    contents: &[HostsContentObject],
    query: &str,
    replacement: &str,
    options: FindOptions,
) -> (res: Result<(Vec<HostsContentObject>, usize), HostzError>)
    ensures
        res is Ok <==> regex_accepts(query_pattern(query@, options), options.is_ignore_case),
        match res {
            Ok((writes, count)) => {
                let plan = replace_plan(list@, contents@, query_pattern(query@, options),
                    options.is_ignore_case, replacement@, list@.len());
                &&& writes@.map_values(|c: HostsContentObject| (c.id@, c.content@)) == plan
                &&& count == plan.len()
            },
            Err(e) => e is InvalidPattern,
        },
{
    let pattern = build_search_pattern(query, options)?;
    let ghost pat = query_pattern(query@, options);
    let ghost ci = options.is_ignore_case;
    let mut writes: Vec<HostsContentObject> = Vec::new();
    let n = list.len();
    let mut k: usize = 0;
    while k < n
        invariant
            n == list@.len(),
            k <= n,
            pattern.pattern_text() == pat,
            pattern.ignores_case() == ci,
            writes@.map_values(|c: HostsContentObject| (c.id@, c.content@))
                == replace_plan(list@, contents@, pat, ci, replacement@, k as nat),
        decreases n - k,
    {
        let item = &list[k];
        if item.type_ == HostsType::Local {
            match get_content_of_hosts(list, contents, item.id.as_str()) {
                Ok(content) => {
                    let spans = match_spans(&pattern, content.as_str());
                    if spans.len() > 0 {
                        let new_content = replace_all(content.as_str(), &pattern, replacement);
                        let ghost before = writes@;
                        let w = HostsContentObject { id: item.id.clone(), content: new_content };
                        writes.push(w);
                        assert(writes@.map_values(|c: HostsContentObject| (c.id@, c.content@)) =~=
                            before.map_values(|c: HostsContentObject| (c.id@, c.content@)).push((w.id@, w.content@)));
                    }
                },
                Err(_) => {},
            }
        }
        k = k + 1;
    }
    let count = writes.len();
    Ok((writes, count))
}

// ---------------------------------------------------------------------
// Laws of replacing
// ---------------------------------------------------------------------

/// A boundary of a valid text before `end` is a boundary of its prefix up
/// to `end`.
proof fn lemma_boundary_in_prefix(b: Seq<u8>, s: int, e: int)
    requires
        valid_utf8(b),
        0 <= s <= e <= b.len(),
        is_char_boundary(b, s),
        is_char_boundary(b, e),
    ensures
        valid_utf8(b.subrange(0, e)),
        is_char_boundary(b.subrange(0, e), s),
{
    valid_utf8_split(b, e);
    let p = b.subrange(0, e);
    if s == e {
        is_char_boundary_start_end_of_seq(p);
    } else {
        is_char_boundary_iff_not_is_continuation_byte(b, s);
        is_char_boundary_iff_not_is_continuation_byte(p, s);
        assert(p[s] == b[s]);
    }
}

/// Replacing a span by the text it already holds gives the text back.
pub proof fn lemma_replace_with_same_text(content: Seq<char>, start: int, end: int)
    requires
        0 <= start <= end <= encode_utf8(content).len(),
        is_char_boundary(encode_utf8(content), start),
        is_char_boundary(encode_utf8(content), end),
    ensures
        ({
            let b = encode_utf8(content);
            text_between(b, 0, start) + text_between(b, start, end) + text_between(b, end, b.len() as int)
                == content
        }),
{
    let b = encode_utf8(content);
    is_char_boundary_start_end_of_seq(b);
    decode_utf8_split(b, end);
    lemma_boundary_in_prefix(b, start, end);
    let p = b.subrange(0, end);
    decode_utf8_split(p, start);
    assert(p.subrange(0, start) =~= b.subrange(0, start));
    assert(p.subrange(start, p.len() as int) =~= b.subrange(start, end));
    assert(b.subrange(0, b.len() as int) =~= b);
}

/// The encoding of a concatenation is the concatenation of the encodings.
proof fn lemma_encode_concat(a: Seq<char>, c: Seq<char>)
    ensures
        encode_utf8(a + c) == encode_utf8(a) + encode_utf8(c),
    decreases a.len(),
{
    if a.len() == 0 {
        assert(a + c =~= c);
        assert(encode_utf8(a) + encode_utf8(c) =~= encode_utf8(c));
    } else {
        lemma_encode_concat(a.drop_first(), c);
        assert((a + c).drop_first() =~= a.drop_first() + c);
        assert((a + c)[0] == a[0]);
        assert(encode_utf8(a + c) =~= encode_utf8(a) + encode_utf8(c));
    }
}

/// Where two valid texts meet is a character boundary.
proof fn lemma_boundary_at_join(b1: Seq<u8>, b2: Seq<u8>)
    requires
        valid_utf8(b1),
        valid_utf8(b2),
    ensures
        valid_utf8(b1 + b2),
        is_char_boundary(b1 + b2, b1.len() as int),
{
    valid_utf8_concat(b1, b2);
    let j = b1 + b2;
    if b2.len() == 0 {
        assert(j =~= b1);
        is_char_boundary_start_end_of_seq(b1);
    } else {
        is_char_boundary_start_end_of_seq(b2);
        is_char_boundary_iff_not_is_continuation_byte(b2, 0);
        is_char_boundary_iff_not_is_continuation_byte(j, b1.len() as int);
        assert(j[b1.len() as int] == b2[0]);
    }
}

/// The bytes of the text between two boundaries of a valid text are those
/// bytes.
proof fn lemma_text_between_bytes(b: Seq<u8>, from: int, to: int)
    requires
        valid_utf8(b),
        0 <= from <= to <= b.len(),
        is_char_boundary(b, from),
        is_char_boundary(b, to),
    ensures
        encode_utf8(text_between(b, from, to)) == b.subrange(from, to),
{
    valid_utf8_split(b, from);
    let tail = b.subrange(from, b.len() as int);
    if to < b.len() {
        is_char_boundary_iff_not_is_continuation_byte(b, to);
        is_char_boundary_iff_not_is_continuation_byte(tail, to - from);
        assert(tail[to - from] == b[to]);
    } else {
        is_char_boundary_start_end_of_seq(tail);
    }
    valid_utf8_split(tail, to - from);
    assert(tail.subrange(0, to - from) =~= b.subrange(from, to));
    decode_utf8_encode_utf8(b.subrange(from, to));
}

/// Replacing the bytes `start..end` changes the byte length by the
/// difference of the lengths, and replacing the new text back by the old
/// one gives the text again.
pub proof fn lemma_replace_one_round_trip(content: Seq<char>, start: int, end: int, replacement: Seq<char>)
    requires
        0 <= start <= end <= encode_utf8(content).len(),
        is_char_boundary(encode_utf8(content), start),
        is_char_boundary(encode_utf8(content), end),
    ensures
        ({
            let b = encode_utf8(content);
            let res = text_between(b, 0, start) + replacement + text_between(b, end, b.len() as int);
            let rb = encode_utf8(res);
            let e2 = start + encode_utf8(replacement).len();
            &&& rb.len() == b.len() - (end - start) + encode_utf8(replacement).len()
            &&& e2 <= rb.len()
            &&& is_char_boundary(rb, start)
            &&& is_char_boundary(rb, e2)
            &&& text_between(rb, 0, start) + text_between(b, start, end) + text_between(rb, e2, rb.len() as int)
                == content
        }),
{
    let b = encode_utf8(content);
    let n = b.len() as int;
    is_char_boundary_start_end_of_seq(b);
    let head = text_between(b, 0, start);
    let tail = text_between(b, end, n);
    lemma_text_between_bytes(b, 0, start);
    lemma_text_between_bytes(b, end, n);
    let hb = b.subrange(0, start);
    let tb = b.subrange(end, n);
    let eb = encode_utf8(replacement);
    let res = head + replacement + tail;
    lemma_encode_concat(head + replacement, tail);
    lemma_encode_concat(head, replacement);
    let rb = encode_utf8(res);
    assert(rb == hb + eb + tb);
    let e2 = start + eb.len();
    valid_utf8_split(b, start);
    valid_utf8_split(b, end);
    encode_utf8_valid_utf8(replacement);
    valid_utf8_concat(eb, tb);
    lemma_boundary_at_join(hb, eb + tb);
    assert(hb + (eb + tb) =~= rb);
    lemma_boundary_at_join(hb + eb, tb);
    is_char_boundary_start_end_of_seq(rb);
    assert(rb.subrange(0, start) =~= hb);
    assert(rb.subrange(e2, rb.len() as int) =~= tb);
    assert(text_between(rb, 0, start) == decode_utf8(hb));
    assert(text_between(rb, e2, rb.len() as int) == decode_utf8(tb));
    lemma_replace_with_same_text(content, start, end);
}

} // verus!
