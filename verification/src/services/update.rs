//! Update checks: comparing version numbers, reading a release, and when
//! to ask for one.

use vstd::prelude::*;
use crate::text::{chars_of, push_char, push_str, to_owned_string};
use crate::error::HostzError;
use crate::models::hosts::{clone_opt_string, opt_chars};

verus! {

/// The result of an update check.
#[derive(Debug)]
pub struct UpdateInfo {
    pub has_update: bool,
    pub current_version: String,
    pub latest_version: String,
    pub download_url: String,
    pub release_notes: Option<String>,
}

// ---------------------------------------------------------------------
// Version numbers
// ---------------------------------------------------------------------

/// The text without its leading `v` characters.
pub open spec fn trim_leading_v(s: Seq<char>) -> Seq<char>
    decreases s.len(),
{
    if s.len() > 0 && s[0] == 'v' {
        trim_leading_v(s.subrange(1, s.len() as int))
    } else {
        s
    }
}

/// The pieces of `s[0..k]` between dots: the finished pieces and the one
/// still open.
pub open spec fn split_dots_upto(s: Seq<char>, k: int) -> (Seq<Seq<char>>, Seq<char>)
    decreases k,
{
    if k <= 0 || k > s.len() {
        (Seq::empty(), Seq::empty())
    } else {
        let (done, cur) = split_dots_upto(s, k - 1);
        if s[k - 1] == '.' {
            (done.push(cur), Seq::empty())
        } else {
            (done, cur.push(s[k - 1]))
        }
    }
}

/// The pieces of a text between dots, as `str::split('.')` gives them.
pub open spec fn split_dots(s: Seq<char>) -> Seq<Seq<char>> {
    let (done, cur) = split_dots_upto(s, s.len() as int);
    done.push(cur)
}

/// The digit a character stands for.
pub open spec fn digit_value(c: char) -> int {
    c as int - '0' as int
}

/// Every character is an ASCII digit.
pub open spec fn all_digits(s: Seq<char>) -> bool {
    forall|i: int| 0 <= i < s.len() ==> '0' <= #[trigger] s[i] <= '9'
}

/// The number that a sequence of digits writes in base 10.
pub open spec fn decimal_value(s: Seq<char>) -> int
    decreases s.len(),
{
    if s.len() == 0 {
        0
    } else {
        decimal_value(s.drop_last()) * 10 + digit_value(s.last())
    }
}

/// What `str::parse::<u32>` gives: an optional `+` then one or more
/// decimal digits whose value fits in a `u32`.
pub open spec fn parse_u32(s: Seq<char>) -> Option<u32> {
    let d = if s.len() > 0 && s[0] == '+' { s.subrange(1, s.len() as int) } else { s };
    if d.len() > 0 && all_digits(d) && decimal_value(d) <= u32::MAX {
        Some(decimal_value(d) as u32)
    } else {
        None
    }
}

/// The numbers among the pieces, the others dropped.
pub open spec fn parsed_numbers(pieces: Seq<Seq<char>>) -> Seq<u32>
    decreases pieces.len(),
{
    if pieces.len() == 0 {
        Seq::empty()
    } else {
        let prev = parsed_numbers(pieces.drop_last());
        match parse_u32(pieces.last()) {
            Some(n) => prev.push(n),
            None => prev,
        }
    }
}

/// The numbers of a version text: leading `v`s dropped, split at dots,
/// pieces that are not numbers left out.
pub open spec fn version_numbers(v: Seq<char>) -> Seq<u32> {
    parsed_numbers(split_dots(trim_leading_v(v)))
}

/// The `i`-th number, 0 past the end.
pub open spec fn number_at(v: Seq<u32>, i: int) -> u32 {
    if 0 <= i < v.len() { v[i] } else { 0 }
}

/// The 32-bit two's complement difference of two numbers taken as `i32`.
pub open spec fn i32_difference(l: u32, c: u32) -> i32 {
    let d = (l as i32) as int - (c as i32) as int;
    if d > i32::MAX {
        (d - 0x1_0000_0000) as i32
    } else if d < i32::MIN {
        (d + 0x1_0000_0000) as i32
    } else {
        d as i32
    }
}

/// Compares two lists of version numbers, the shorter one padded with 0:
/// at the first place where they differ, the difference; else 0.
pub open spec fn compare_numbers(l: Seq<u32>, c: Seq<u32>, from: int) -> i32
    decreases (if l.len() > c.len() { l.len() } else { c.len() }) - from,
{
    let max_len = if l.len() > c.len() { l.len() as int } else { c.len() as int };
    if from < 0 || from >= max_len {
        0
    } else if number_at(l, from) != number_at(c, from) {
        i32_difference(number_at(l, from), number_at(c, from))
    } else {
        compare_numbers(l, c, from + 1)
    }
}

proof fn lemma_decimal_value_nonneg(s: Seq<char>)
    requires
        all_digits(s),
    ensures
        decimal_value(s) >= 0,
    decreases s.len(),
{
    if s.len() > 0 {
        lemma_decimal_value_nonneg(s.drop_last());
    }
}

proof fn lemma_decimal_value_grows(s: Seq<char>, k: int)
    requires
        all_digits(s),
        0 <= k <= s.len(),
    ensures
        decimal_value(s.subrange(0, k)) <= decimal_value(s),
    decreases s.len() - k,
{
    if k < s.len() {
        let t = s.subrange(0, k + 1);
        assert(t.drop_last() =~= s.subrange(0, k));
        assert(all_digits(s.subrange(0, k)));
        lemma_decimal_value_nonneg(s.subrange(0, k));
        lemma_decimal_value_grows(s, k + 1);
    } else {
        assert(s.subrange(0, k) =~= s);
    }
}

/// Parses a piece as `str::parse::<u32>` does.
pub fn parse_number(s: &Vec<char>, lo: usize, hi: usize) -> (res: Option<u32>)
    requires
        lo <= hi <= s@.len(),
    ensures
        res == parse_u32(s@.subrange(lo as int, hi as int)),
{
    let ghost p = s@.subrange(lo as int, hi as int);
    let start = if lo < hi && s[lo] == '+' { lo + 1 } else { lo };
    let ghost d = s@.subrange(start as int, hi as int);
    assert(d =~= (if p.len() > 0 && p[0] == '+' { p.subrange(1, p.len() as int) } else { p }));
    if start >= hi {
        return None;
    }
    let mut value: u64 = 0;
    let mut k = start;
    while k < hi
        invariant
            start <= k <= hi,
            hi <= s@.len(),
            d == s@.subrange(start as int, hi as int),
            p == s@.subrange(lo as int, hi as int),
            d == (if p.len() > 0 && p[0] == '+' { p.subrange(1, p.len() as int) } else { p }),
            d.len() > 0,
            all_digits(s@.subrange(start as int, k as int)),
            value == decimal_value(s@.subrange(start as int, k as int)),
            value <= u32::MAX,
        decreases hi - k,
    {
        let c = s[k];
        if c < '0' || c > '9' {
            assert(d[k - start] == c);
            assert(!('0' <= d[k - start] <= '9'));
            return None;
        }
        let ghost prefix = s@.subrange(start as int, k + 1);
        assert(prefix.drop_last() =~= s@.subrange(start as int, k as int));
        assert(all_digits(prefix));
        let digit = (c as u32 - '0' as u32) as u64;
        value = value * 10 + digit;
        if value > u32::MAX as u64 {
            proof {
                assert(d.subrange(0, k + 1 - start) =~= prefix);
                if all_digits(d) {
                    lemma_decimal_value_grows(d, k + 1 - start);
                }
            }
            return None;
        }
        k = k + 1;
    }
    assert(s@.subrange(start as int, hi as int) =~= d);
    Some(value as u32)
}

/// The numbers of a version text, as `compare_versions` reads them.
pub fn version_parts(v: &str) -> (res: Vec<u32>)
    ensures
        res@ == version_numbers(v@),
{
    let cs = chars_of(v);
    let n = cs.len();
    let mut start: usize = 0;
    assert(cs@.subrange(0, n as int) =~= cs@);
    while start < n && cs[start] == 'v'
        invariant
            n == cs@.len(),
            start <= n,
            trim_leading_v(cs@) == trim_leading_v(cs@.subrange(start as int, n as int)),
        decreases n - start,
    {
        let ghost rest = cs@.subrange(start as int, n as int);
        assert(rest.subrange(1, rest.len() as int) =~= cs@.subrange(start + 1, n as int));
        start = start + 1;
    }
    let ghost t = cs@.subrange(start as int, n as int);
    assert(trim_leading_v(cs@) == t) by {
        assert(cs@.subrange(0, n as int) =~= cs@);
    }
    let mut res: Vec<u32> = Vec::new();
    let mut piece_start = start;
    let mut k = start;
    while k < n
        invariant
            n == cs@.len(),
            start <= piece_start <= k <= n,
            t == cs@.subrange(start as int, n as int),
            res@ == parsed_numbers(split_dots_upto(t, k - start).0),
            split_dots_upto(t, k - start).1 == cs@.subrange(piece_start as int, k as int),
        decreases n - k,
    {
        assert(t[k - start] == cs@[k as int]);
        if cs[k] == '.' {
            let ghost done = split_dots_upto(t, k - start).0;
            let ghost cur = split_dots_upto(t, k - start).1;
            assert(done.push(cur).drop_last() =~= done);
            match parse_number(&cs, piece_start, k) {
                Some(x) => res.push(x),
                None => {},
            }
            piece_start = k + 1;
        } else {
            assert(cs@.subrange(piece_start as int, k + 1) =~= cs@.subrange(piece_start as int, k as int).push(cs@[k as int]));
        }
        k = k + 1;
    }
    let ghost done = split_dots_upto(t, n - start).0;
    let ghost cur = split_dots_upto(t, n - start).1;
    assert(t.len() == n - start);
    assert(done.push(cur).drop_last() =~= done);
    match parse_number(&cs, piece_start, n) {
        Some(x) => res.push(x),
        None => {},
    }
    res
}

/// Compares two version texts: 0 when equal, positive when `latest` is
/// newer, negative when `current` is newer. Leading `v`s are dropped, the
/// dot-separated pieces that are numbers compared in order, a missing
/// piece counting as 0; the result is the first difference.
pub fn compare_versions(latest: &str, current: &str) -> (res: i32)
    ensures
        res == compare_numbers(version_numbers(latest@), version_numbers(current@), 0),
{
    let lv = version_parts(latest);
    let cv = version_parts(current);
    let max_len = if lv.len() > cv.len() { lv.len() } else { cv.len() };
    let mut i: usize = 0;
    while i < max_len
        invariant
            lv@ == version_numbers(latest@),
            cv@ == version_numbers(current@),
            max_len == if lv@.len() > cv@.len() { lv@.len() } else { cv@.len() },
            i <= max_len,
            compare_numbers(lv@, cv@, 0) == compare_numbers(lv@, cv@, i as int),
        decreases max_len - i,
    {
        let l = if i < lv.len() { lv[i] } else { 0 };
        let c = if i < cv.len() { cv[i] } else { 0 };
        if l != c {
            return (l as i32).wrapping_sub(c as i32);
        }
        i = i + 1;
    }
    0
}

/// A version compares equal to itself.
pub proof fn lemma_compare_versions_reflexive(v: Seq<u32>, from: int)
    requires
        from >= 0,
    ensures
        compare_numbers(v, v, from) == 0,
    decreases v.len() - from,
{
    if from < v.len() {
        lemma_compare_versions_reflexive(v, from + 1);
    }
}

/// Swapping the two versions negates the comparison, when every number
/// fits in an `i32`.
pub proof fn lemma_compare_versions_antisymmetric(l: Seq<u32>, c: Seq<u32>, from: int)
    requires
        from >= 0,
        forall|i: int| 0 <= i < l.len() ==> #[trigger] l[i] <= i32::MAX,
        forall|i: int| 0 <= i < c.len() ==> #[trigger] c[i] <= i32::MAX,
    ensures
        compare_numbers(l, c, from) == -compare_numbers(c, l, from),
    decreases (if l.len() > c.len() { l.len() } else { c.len() }) - from,
{
    let max_len = if l.len() > c.len() { l.len() as int } else { c.len() as int };
    if from < max_len {
        if number_at(l, from) == number_at(c, from) {
            lemma_compare_versions_antisymmetric(l, c, from + 1);
        }
    }
}

/// The longer of the two lengths.
pub open spec fn longer_len(l: Seq<u32>, c: Seq<u32>) -> int {
    if l.len() > c.len() { l.len() as int } else { c.len() as int }
}

/// From place `from` on, `l` comes before `c` in the order of their
/// zero-padded numbers: they agree up to a place where `l`'s is smaller.
pub open spec fn padded_less_from(l: Seq<u32>, c: Seq<u32>, from: int) -> bool {
    exists|k: int| #![trigger number_at(l, k), number_at(c, k)]
        from <= k < longer_len(l, c) && number_at(l, k) < number_at(c, k)
        && forall|i: int| from <= i < k ==> #[trigger] number_at(l, i) == number_at(c, i)
}

/// From place `from` on, the zero-padded numbers agree.
pub open spec fn padded_equal_from(l: Seq<u32>, c: Seq<u32>, from: int) -> bool {
    forall|i: int| from <= i ==> #[trigger] number_at(l, i) == number_at(c, i)
}

/// Every number fits in an `i32`.
pub open spec fn fits_i32(v: Seq<u32>) -> bool {
    forall|i: int| 0 <= i < v.len() ==> #[trigger] v[i] <= i32::MAX
}

proof fn lemma_compare_numbers_order(l: Seq<u32>, c: Seq<u32>, from: int)
    requires
        from >= 0,
        fits_i32(l),
        fits_i32(c),
    ensures
        compare_numbers(l, c, from) < 0 <==> padded_less_from(l, c, from),
        compare_numbers(l, c, from) > 0 <==> padded_less_from(c, l, from),
        compare_numbers(l, c, from) == 0 <==> padded_equal_from(l, c, from),
    decreases longer_len(l, c) - from,
{
    let max = longer_len(l, c);
    assert(longer_len(c, l) == max);
    if from >= max {
        assert forall|i: int| from <= i implies #[trigger] number_at(l, i) == number_at(c, i) by {}
        if padded_less_from(l, c, from) {
            let k = choose|k: int| #![trigger number_at(l, k), number_at(c, k)]
                from <= k < longer_len(l, c) && number_at(l, k) < number_at(c, k)
                && forall|i: int| from <= i < k ==> #[trigger] number_at(l, i) == number_at(c, i);
        }
        if padded_less_from(c, l, from) {
            let k = choose|k: int| #![trigger number_at(c, k), number_at(l, k)]
                from <= k < longer_len(c, l) && number_at(c, k) < number_at(l, k)
                && forall|i: int| from <= i < k ==> #[trigger] number_at(c, i) == number_at(l, i);
        }
    } else {
        let a = number_at(l, from);
        let b = number_at(c, from);
        assert(a <= i32::MAX) by {
            if from < l.len() { assert(l[from] <= i32::MAX); }
        }
        assert(b <= i32::MAX) by {
            if from < c.len() { assert(c[from] <= i32::MAX); }
        }
        if a != b {
            assert(compare_numbers(l, c, from) == a as int - b as int);
            if a < b {
                assert(padded_less_from(l, c, from));
                assert(!padded_less_from(c, l, from)) by {
                    if padded_less_from(c, l, from) {
                        let k = choose|k: int| #![trigger number_at(c, k), number_at(l, k)]
                            from <= k < longer_len(c, l) && number_at(c, k) < number_at(l, k)
                            && forall|i: int| from <= i < k ==> #[trigger] number_at(c, i) == number_at(l, i);
                        if k > from {
                            assert(number_at(c, from) == number_at(l, from));
                        }
                    }
                }
            } else {
                assert(padded_less_from(c, l, from));
                assert(!padded_less_from(l, c, from)) by {
                    if padded_less_from(l, c, from) {
                        let k = choose|k: int| #![trigger number_at(l, k), number_at(c, k)]
                            from <= k < longer_len(l, c) && number_at(l, k) < number_at(c, k)
                            && forall|i: int| from <= i < k ==> #[trigger] number_at(l, i) == number_at(c, i);
                        if k > from {
                            assert(number_at(l, from) == number_at(c, from));
                        }
                    }
                }
            }
            assert(!padded_equal_from(l, c, from)) by {
                assert(number_at(l, from) != number_at(c, from));
            }
        } else {
            lemma_compare_numbers_order(l, c, from + 1);
            assert(padded_less_from(l, c, from) <==> padded_less_from(l, c, from + 1)) by {
                if padded_less_from(l, c, from) {
                    let k = choose|k: int| #![trigger number_at(l, k), number_at(c, k)]
                        from <= k < longer_len(l, c) && number_at(l, k) < number_at(c, k)
                        && forall|i: int| from <= i < k ==> #[trigger] number_at(l, i) == number_at(c, i);
                    assert(k != from);
                    assert(forall|i: int| from + 1 <= i < k ==> #[trigger] number_at(l, i) == number_at(c, i));
                }
                if padded_less_from(l, c, from + 1) {
                    let k = choose|k: int| #![trigger number_at(l, k), number_at(c, k)]
                        from + 1 <= k < longer_len(l, c) && number_at(l, k) < number_at(c, k)
                        && forall|i: int| from + 1 <= i < k ==> #[trigger] number_at(l, i) == number_at(c, i);
                    assert forall|i: int| from <= i < k implies #[trigger] number_at(l, i) == number_at(c, i) by {
                        if i > from {
                            assert(from + 1 <= i < k);
                        }
                    }
                }
            }
            assert(padded_less_from(c, l, from) <==> padded_less_from(c, l, from + 1)) by {
                if padded_less_from(c, l, from) {
                    let k = choose|k: int| #![trigger number_at(c, k), number_at(l, k)]
                        from <= k < longer_len(c, l) && number_at(c, k) < number_at(l, k)
                        && forall|i: int| from <= i < k ==> #[trigger] number_at(c, i) == number_at(l, i);
                    assert(k != from);
                    assert(forall|i: int| from + 1 <= i < k ==> #[trigger] number_at(c, i) == number_at(l, i));
                }
                if padded_less_from(c, l, from + 1) {
                    let k = choose|k: int| #![trigger number_at(c, k), number_at(l, k)]
                        from + 1 <= k < longer_len(c, l) && number_at(c, k) < number_at(l, k)
                        && forall|i: int| from + 1 <= i < k ==> #[trigger] number_at(c, i) == number_at(l, i);
                    assert forall|i: int| from <= i < k implies #[trigger] number_at(c, i) == number_at(l, i) by {
                        if i > from {
                            assert(from + 1 <= i < k);
                        }
                    }
                }
            }
            assert(padded_equal_from(l, c, from) <==> padded_equal_from(l, c, from + 1)) by {
                if padded_equal_from(l, c, from + 1) {
                    assert forall|i: int| from <= i implies #[trigger] number_at(l, i) == number_at(c, i) by {
                        if i > from {
                            assert(from + 1 <= i);
                        }
                    }
                }
            }
        }
    }
}

/// The sign of a comparison is the order of the zero-padded version
/// numbers, when every number fits in an `i32`: negative exactly when
/// `latest` comes first, positive exactly when `current` does, zero
/// exactly when they agree everywhere.
pub proof fn lemma_compare_versions_order(l: Seq<u32>, c: Seq<u32>)
    requires
        fits_i32(l),
        fits_i32(c),
    ensures
        compare_numbers(l, c, 0) < 0 <==> padded_less_from(l, c, 0),
        compare_numbers(l, c, 0) > 0 <==> padded_less_from(c, l, 0),
        compare_numbers(l, c, 0) == 0 <==> padded_equal_from(l, c, 0),
{
    lemma_compare_numbers_order(l, c, 0);
}

/// A leading `v` does not change a version: `v1.2` and `1.2` have the
/// same numbers.
pub proof fn lemma_leading_v_ignored(v: Seq<char>)
    ensures
        version_numbers(seq!['v'] + v) == version_numbers(v),
{
    let w = seq!['v'] + v;
    assert(w.subrange(1, w.len() as int) =~= v);
}

// ---------------------------------------------------------------------
// Releases
// ---------------------------------------------------------------------

/// Where the releases of the application are listed.
pub open spec fn releases_page() -> Seq<char> {
    "https://github.com/dorstar/hostz/releases"@
}

/// The API address of the latest release.
pub fn release_api_url() -> (res: String)
    ensures
        res@ == "https://api.github.com/repos/"@ + "dorstar"@ + "/"@ + "hostz"@ + "/releases/latest"@,
{
    let mut s = to_owned_string("https://api.github.com/repos/");
    push_str(&mut s, "dorstar");
    push_str(&mut s, "/");
    push_str(&mut s, "hostz");
    push_str(&mut s, "/releases/latest");
    s
}

/// The text without its leading `v` characters.
pub fn trim_v(s: &str) -> (res: String)
    ensures
        res@ == trim_leading_v(s@),
{
    let cs = chars_of(s);
    let n = cs.len();
    let mut start: usize = 0;
    assert(cs@.subrange(0, n as int) =~= cs@);
    while start < n && cs[start] == 'v'
        invariant
            n == cs@.len(),
            start <= n,
            trim_leading_v(cs@) == trim_leading_v(cs@.subrange(start as int, n as int)),
        decreases n - start,
    {
        let ghost rest = cs@.subrange(start as int, n as int);
        assert(rest.subrange(1, rest.len() as int) =~= cs@.subrange(start + 1, n as int));
        start = start + 1;
    }
    assert(cs@.subrange(0, n as int) =~= cs@);
    let mut res = String::new();
    let mut k = start;
    while k < n
        invariant
            n == cs@.len(),
            start <= k <= n,
            res@ == cs@.subrange(start as int, k as int),
        decreases n - k,
    {
        push_char(&mut res, cs[k]);
        assert(cs@.subrange(start as int, k + 1) =~= cs@.subrange(start as int, k as int).push(cs@[k as int]));
        k = k + 1;
    }
    res
}

/// The text of an optional string slice.
pub open spec fn opt_str(o: Option<&str>) -> Option<Seq<char>> {
    match o {
        Some(t) => Some(t@),
        None => None,
    }
}

/// The update information from the fields of the latest release: its tag
/// (the current version when missing) without leading `v`s, its page (the
/// releases page when missing) and its notes; an update exists when the
/// tag's version is newer than the current one.
pub open spec fn is_release_info(
    info: UpdateInfo,
    current_version: Seq<char>,
    tag_name: Option<Seq<char>>,
    html_url: Option<Seq<char>>,
    notes: Option<Seq<char>>,
) -> bool {
    let tag = match tag_name { Some(t) => t, None => current_version };
    &&& info.latest_version@ == trim_leading_v(tag)
    &&& info.has_update == (compare_numbers(version_numbers(trim_leading_v(tag)),
        version_numbers(current_version), 0) > 0)
    &&& info.current_version@ == current_version
    &&& info.download_url@ == match html_url { Some(u) => u, None => releases_page() }
    &&& opt_chars(info.release_notes) == notes
}

/// The update information from the fields of the latest release.
pub fn update_info_from_release(
    current_version: &str,
    tag_name: Option<&str>,
    html_url: Option<&str>,
    body: Option<String>,
) -> (res: UpdateInfo)
    ensures
        is_release_info(res, current_version@, opt_str(tag_name), opt_str(html_url), opt_chars(body)),
        res.release_notes == body,
{
    let tag = match tag_name {
        Some(t) => t,
        None => current_version,
    };
    let latest = trim_v(tag);
    let url = match html_url {
        Some(u) => to_owned_string(u),
        None => to_owned_string("https://github.com/dorstar/hostz/releases"),
    };
    let has_update = compare_versions(latest.as_str(), current_version) > 0;
    UpdateInfo {
        has_update,
        current_version: to_owned_string(current_version),
        latest_version: latest,
        download_url: url,
        release_notes: body,
    }
}

/// The string fields of a release as a JSON text gives them.
pub struct ReleaseFields {
    pub tag_name: Option<String>,
    pub html_url: Option<String>,
    pub body: Option<String>,
}

/// The fields `tag_name`, `html_url` and `body` of a JSON text as the
/// `serde_json` crate reads them (each present when the text is an object
/// whose field of that name is a string), or `None` when the text is not
/// valid JSON.
pub uninterp spec fn json_release_fields(text: Seq<char>) -> Option<(Option<Seq<char>>, Option<Seq<char>>, Option<Seq<char>>)>;

/// Reads the release fields of a JSON text.
///
/// Trusted: calls `serde_json::from_str` into a `serde_json::Value`, then
/// takes `value[name].as_str()` for each field. The contract names the
/// result `json_release_fields` of the text; the error's text is left
/// unsaid.
#[verifier::external_body]
fn read_release_json(text: &str) -> (res: Result<ReleaseFields, String>)
    ensures
        match json_release_fields(text@) {
            Some((t, u, b)) => res matches Ok(f)
                && opt_chars(f.tag_name) == t && opt_chars(f.html_url) == u && opt_chars(f.body) == b,
            None => res is Err,
        },
{
    let v: serde_json::Value = serde_json::from_str(text).map_err(|e| e.to_string())?;
    Ok(ReleaseFields {
        tag_name: v["tag_name"].as_str().map(|s| s.to_string()),
        html_url: v["html_url"].as_str().map(|s| s.to_string()),
        body: v["body"].as_str().map(|s| s.to_string()),
    })
}

/// The update information from the JSON text of the latest release, or
/// an error when the text is not JSON.
pub fn update_info_from_json(current_version: &str, text: &str) -> (res: Result<UpdateInfo, HostzError>)
    ensures
        match json_release_fields(text@) {
            Some((t, u, b)) => res matches Ok(info) && is_release_info(info, current_version@, t, u, b),
            None => res matches Err(HostzError::InvalidRelease { .. }),
        },
{
    match read_release_json(text) {
        Ok(fields) => {
            let tag = match &fields.tag_name {
                Some(t) => Some(t.as_str()),
                None => None,
            };
            let url = match &fields.html_url {
                Some(u) => Some(u.as_str()),
                None => None,
            };
            let notes = clone_opt_string(&fields.body);
            Ok(update_info_from_release(current_version, tag, url, notes))
        },
        Err(message) => Err(HostzError::InvalidRelease { message }),
    }
}

/// The answer of an update check that does not ask: no update.
pub fn no_update_info(current_version: &str) -> (res: UpdateInfo)
    ensures
        !res.has_update,
        res.current_version@ == current_version@,
        res.latest_version@ == current_version@,
        res.download_url@ == Seq::<char>::empty(),
        res.release_notes is None,
{
    UpdateInfo {
        has_update: false,
        current_version: to_owned_string(current_version),
        latest_version: to_owned_string(current_version),
        download_url: String::new(),
        release_notes: None,
    }
}

/// What an update check does.
#[derive(Debug, Clone, Copy, PartialEq, Eq, Structural)]
pub enum UpdateGate {
    /// The last check was less than an hour ago: answer no update.
    CoolingDown,
    /// Update checks are off in the settings: answer no update.
    Disabled,
    /// Ask for the latest release.
    Check,
}

/// The action of an update check at time `now` (seconds) after the last
/// one at `last_check`, and the time to record as the last check. Within
/// an hour of the last check nothing is recorded; otherwise `now` is
/// recorded, and the settings decide whether to ask.
pub open spec fn update_gate(now: i64, last_check: i64, auto_download_update: bool) -> (UpdateGate, i64) {
    if now - last_check < 3600 {
        (UpdateGate::CoolingDown, last_check)
    } else if !auto_download_update {
        (UpdateGate::Disabled, now)
    } else {
        (UpdateGate::Check, now)
    }
}

/// Decides an update check at time `now` (seconds).
pub fn check_update(now: i64, last_check: i64, auto_download_update: bool) -> (res: (UpdateGate, i64))
    ensures
        res == update_gate(now, last_check, auto_download_update),
{
    if (now as i128) - (last_check as i128) < 3600 {
        (UpdateGate::CoolingDown, last_check)
    } else if !auto_download_update {
        (UpdateGate::Disabled, now)
    } else {
        (UpdateGate::Check, now)
    }
}

} // verus!
