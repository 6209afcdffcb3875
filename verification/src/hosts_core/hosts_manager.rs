//! What is written to the system hosts file, switching entries on and off,
//! and the list updates of a remote refresh.

use vstd::prelude::*;
use crate::error::HostzError;
use crate::hosts_core::content_parser::{
    first_match, is_first_match, position_of_id, set_on_state_of_item, update_one_item,
    on_state_after, lemma_first_match_sound, without_duplicate_records, remove_duplicate_lines,
    lemma_dedup_adds_no_char,
};
use crate::models::config::{AppConfig, WriteMode};
use crate::models::hosts::{HostsHistoryObject, HostsListObject, HostsEntry, entries, opt_chars};
use crate::text::{chars_of, push_char, push_str, to_owned_string};

verus! {

/// The line after which the application's text starts in append mode.
pub open spec fn marker() -> Seq<char> {
    "# --- SWITCHHOSTS_CONTENT_START ---"@
}

// ---------------------------------------------------------------------
// Substring search on characters
// ---------------------------------------------------------------------

/// `pat` occurs in `s` starting at `i`.
pub open spec fn occurs_at(s: Seq<char>, pat: Seq<char>, i: int) -> bool {
    0 <= i && i + pat.len() <= s.len() && s.subrange(i, i + pat.len()) == pat
}

/// `i` is the first place where `pat` occurs in `s`.
pub open spec fn is_first_occurrence(s: Seq<char>, pat: Seq<char>, i: int) -> bool {
    occurs_at(s, pat, i) && forall|j: int| 0 <= j < i ==> !#[trigger] occurs_at(s, pat, j)
}

/// The first place where `pat` occurs in `s`.
pub open spec fn find_first(s: Seq<char>, pat: Seq<char>) -> Option<int> {
    if exists|i: int| #[trigger] occurs_at(s, pat, i) {
        Some(choose|i: int| is_first_occurrence(s, pat, i))
    } else {
        None
    }
}

proof fn lemma_first_occurrence_exists(s: Seq<char>, pat: Seq<char>, k: int)
    requires
        occurs_at(s, pat, k),
    ensures
        exists|i: int| is_first_occurrence(s, pat, i),
    decreases k,
{
    if exists|j: int| 0 <= j < k && #[trigger] occurs_at(s, pat, j) {
        let j = choose|j: int| 0 <= j < k && #[trigger] occurs_at(s, pat, j);
        lemma_first_occurrence_exists(s, pat, j);
    } else {
        assert(is_first_occurrence(s, pat, k));
    }
}

/// `find_first` names the first occurrence, when there is one.
pub proof fn lemma_find_first(s: Seq<char>, pat: Seq<char>)
    ensures
        find_first(s, pat) matches Some(i) ==> is_first_occurrence(s, pat, i),
        find_first(s, pat) is None ==> forall|j: int| !#[trigger] occurs_at(s, pat, j),
{
    if exists|i: int| #[trigger] occurs_at(s, pat, i) {
        let k = choose|i: int| #[trigger] occurs_at(s, pat, i);
        lemma_first_occurrence_exists(s, pat, k);
    }
}

/// The first occurrence is the one that `find_first` names.
pub proof fn lemma_find_first_is(s: Seq<char>, pat: Seq<char>, i: int)
    requires
        is_first_occurrence(s, pat, i),
    ensures
        find_first(s, pat) == Some(i),
{
    lemma_find_first(s, pat);
    let k = find_first(s, pat)->0;
    if k < i {
        assert(!occurs_at(s, pat, k));
    }
    if i < k {
        assert(!occurs_at(s, pat, i));
    }
}

fn occurs_at_exec(s: &Vec<char>, pat: &Vec<char>, i: usize) -> (res: bool)
    ensures
        res == occurs_at(s@, pat@, i as int),
{
    if i > s.len() || pat.len() > s.len() - i {
        return false;
    }
    let m = pat.len();
    let n = s.len();
    let mut k: usize = 0;
    while k < m
        invariant
            m == pat@.len(),
            n == s@.len(),
            i + m <= n,
            k <= m,
            forall|t: int| 0 <= t < k ==> s@[i + t] == pat@[t],
        decreases m - k,
    {
        if s[i + k] != pat[k] {
            assert(s@.subrange(i as int, i + m)[k as int] != pat@[k as int]);
            return false;
        }
        k = k + 1;
    }
    assert(s@.subrange(i as int, i + m) =~= pat@);
    true
}

/// The first place where `pat` occurs in `s`.
fn find_first_exec(s: &Vec<char>, pat: &Vec<char>) -> (res: Option<usize>)
    ensures
        match find_first(s@, pat@) {
            Some(i) => res == Some(i as usize),
            None => res is None,
        },
{
    let n = s.len();
    let mut i: usize = 0;
    while i < n
        invariant
            n == s@.len(),
            i <= n,
            forall|j: int| 0 <= j < i ==> !#[trigger] occurs_at(s@, pat@, j),
        decreases n - i,
    {
        if occurs_at_exec(s, pat, i) {
            proof { lemma_find_first_is(s@, pat@, i as int); }
            return Some(i);
        }
        i = i + 1;
    }
    if occurs_at_exec(s, pat, n) {
        proof { lemma_find_first_is(s@, pat@, n as int); }
        return Some(n);
    }
    proof {
        lemma_find_first(s@, pat@);
        assert forall|j: int| !#[trigger] occurs_at(s@, pat@, j) by {
            if j > n as int {
                assert(!occurs_at(s@, pat@, j));
            }
        }
    }
    None
}

/// A string with the characters `lo..hi` of a sequence.
fn string_of(cs: &Vec<char>, lo: usize, hi: usize) -> (res: String)
    requires
        lo <= hi <= cs@.len(),
    ensures
        res@ == cs@.subrange(lo as int, hi as int),
{
    let mut res = String::new();
    let mut k = lo;
    while k < hi
        invariant
            lo <= k <= hi,
            hi <= cs@.len(),
            res@ == cs@.subrange(lo as int, k as int),
        decreases hi - k,
    {
        push_char(&mut res, cs[k]);
        assert(cs@.subrange(lo as int, k + 1) =~= cs@.subrange(lo as int, k as int).push(cs@[k as int]));
        k = k + 1;
    }
    res
}

// ---------------------------------------------------------------------
// Append mode
// ---------------------------------------------------------------------

/// The system hosts text in append mode: the text up to the first marker
/// line is kept, and the marker and the new text replace what follows it.
/// Without a marker, the current text is kept whole (ended by a newline
/// when it is not empty) and an empty line, the marker and the new text
/// follow it.
pub open spec fn append_content(current: Seq<char>, new_content: Seq<char>) -> Seq<char> {
    match find_first(current, marker()) {
        Some(p) => current.subrange(0, p) + marker() + "\n"@ + new_content,
        None => {
            let sep = if current.len() == 0 || current.last() == '\n' { Seq::<char>::empty() } else { "\n"@ };
            current + sep + "\n"@ + marker() + "\n"@ + new_content
        },
    }
}

/// The system hosts text in append mode.
pub fn make_append_content(current: &str, new_content: &str) -> (res: String)
    ensures
        res@ == append_content(current@, new_content@),
{
    let cs = chars_of(current);
    let marker_text = "# --- SWITCHHOSTS_CONTENT_START ---";
    let ms = chars_of(marker_text);
    match find_first_exec(&cs, &ms) {
        Some(p) => {
            proof {
                lemma_find_first(cs@, ms@);
                let i = find_first(cs@, ms@)->0;
                assert(occurs_at(cs@, ms@, i));
                assert(0 <= i <= cs.len());
                assert(Some(p) == Some(i as usize));
                assert(p as int == i);
            }
            assert(ms@ == marker());
            assert(find_first(current@, marker()) == Some(p as int));
            let mut res = string_of(&cs, 0, p);
            push_str(&mut res, marker_text);
            push_str(&mut res, "\n");
            push_str(&mut res, new_content);
            res
        },
        None => {
            let mut res = to_owned_string(current);
            let n = cs.len();
            if n > 0 && cs[n - 1] != '\n' {
                push_str(&mut res, "\n");
            }
            push_str(&mut res, "\n");
            push_str(&mut res, marker_text);
            push_str(&mut res, "\n");
            push_str(&mut res, new_content);
            res
        },
    }
}

// ---------------------------------------------------------------------
// Line endings
// ---------------------------------------------------------------------

/// The text with every `\r\n` pair replaced by `\n`, scanning left to
/// right.
pub open spec fn crlf_to_lf(s: Seq<char>) -> Seq<char>
    decreases s.len(),
{
    if s.len() == 0 {
        s
    } else if s.len() >= 2 && s[0] == '\r' && s[1] == '\n' {
        seq!['\n'] + crlf_to_lf(s.subrange(2, s.len() as int))
    } else {
        seq![s[0]] + crlf_to_lf(s.subrange(1, s.len() as int))
    }
}

/// The text with every `\n` replaced by `\r\n`.
pub open spec fn lf_to_crlf(s: Seq<char>) -> Seq<char>
    decreases s.len(),
{
    if s.len() == 0 {
        s
    } else if s[0] == '\n' {
        seq!['\r', '\n'] + lf_to_crlf(s.subrange(1, s.len() as int))
    } else {
        seq![s[0]] + lf_to_crlf(s.subrange(1, s.len() as int))
    }
}

/// The text with Windows line endings turned into `\n`.
pub fn normalize_to_lf(content: &str) -> (res: String)
    ensures
        res@ == crlf_to_lf(content@),
{
    let cs = chars_of(content);
    let n = cs.len();
    let mut res = String::new();
    let mut i: usize = 0;
    assert(cs@.subrange(0, n as int) =~= cs@);
    assert(res@ + crlf_to_lf(cs@) =~= crlf_to_lf(cs@));
    while i < n
        invariant
            n == cs@.len(),
            i <= n,
            res@ + crlf_to_lf(cs@.subrange(i as int, n as int)) == crlf_to_lf(cs@),
        decreases n - i,
    {
        let ghost rest = cs@.subrange(i as int, n as int);
        if i + 1 < n && cs[i] == '\r' && cs[i + 1] == '\n' {
            assert(rest.subrange(2, rest.len() as int) =~= cs@.subrange(i + 2, n as int));
            push_char(&mut res, '\n');
            assert(res@ + crlf_to_lf(cs@.subrange(i + 2, n as int)) =~= crlf_to_lf(cs@));
            i = i + 2;
        } else {
            assert(rest.subrange(1, rest.len() as int) =~= cs@.subrange(i + 1, n as int));
            push_char(&mut res, cs[i]);
            assert(res@ + crlf_to_lf(cs@.subrange(i + 1, n as int)) =~= crlf_to_lf(cs@));
            i = i + 1;
        }
    }
    res
}

/// The text with every `\n` turned into `\r\n`.
pub fn lf_to_crlf_text(content: &str) -> (res: String)
    ensures
        res@ == lf_to_crlf(content@),
{
    let cs = chars_of(content);
    let n = cs.len();
    let mut res = String::new();
    let mut i: usize = 0;
    assert(cs@.subrange(0, n as int) =~= cs@);
    assert(res@ + lf_to_crlf(cs@) =~= lf_to_crlf(cs@));
    while i < n
        invariant
            n == cs@.len(),
            i <= n,
            res@ + lf_to_crlf(cs@.subrange(i as int, n as int)) == lf_to_crlf(cs@),
        decreases n - i,
    {
        let ghost rest = cs@.subrange(i as int, n as int);
        assert(rest.subrange(1, rest.len() as int) =~= cs@.subrange(i + 1, n as int));
        if cs[i] == '\n' {
            push_char(&mut res, '\r');
            push_char(&mut res, '\n');
        } else {
            push_char(&mut res, cs[i]);
        }
        assert(res@ + lf_to_crlf(cs@.subrange(i + 1, n as int)) =~= lf_to_crlf(cs@));
        i = i + 1;
    }
    res
}

/// The text to write to the system hosts file by hand: line endings made
/// `\n`, then `\r\n` on Windows.
pub fn normalize_system_hosts_text(content: &str, windows: bool) -> (res: String)
    ensures
        res@ == if windows { lf_to_crlf(crlf_to_lf(content@)) } else { crlf_to_lf(content@) },
{
    let lf = normalize_to_lf(content);
    if windows {
        lf_to_crlf_text(lf.as_str())
    } else {
        lf
    }
}

// ---------------------------------------------------------------------
// Applying the enabled entries to the system
// ---------------------------------------------------------------------

/// The enabled text as it goes into the system file: line endings made
/// `\n`, duplicate records removed when the settings ask for it.
pub open spec fn prepared_content(enabled: Seq<char>, remove_duplicates: bool) -> Seq<char> {
    if remove_duplicates {
        without_duplicate_records(crlf_to_lf(enabled))
    } else {
        crlf_to_lf(enabled)
    }
}

/// What the system hosts file should become: the prepared enabled text
/// placed by the write mode into the current file (line endings made
/// `\n`). `None` when that equals the current file; otherwise the text
/// with `\r\n` line endings on Windows.
pub open spec fn system_hosts_update(
    enabled: Seq<char>,
    current: Seq<char>,
    remove_duplicates: bool,
    mode: WriteMode,
    windows: bool,
) -> Option<Seq<char>> {
    let content = prepared_content(enabled, remove_duplicates);
    let cur = crlf_to_lf(current);
    let final_text = match mode {
        WriteMode::Append => append_content(cur, content),
        WriteMode::Overwrite => content,
    };
    if final_text == cur {
        None
    } else if windows {
        Some(lf_to_crlf(final_text))
    } else {
        Some(final_text)
    }
}

/// Whether two strings hold the same characters.
fn same_text(a: &String, b: &String) -> (res: bool)
    ensures
        res == (a@ == b@),
{
    crate::text::str_eq(a.as_str(), b.as_str())
}

/// Plans a write of the system hosts file from the enabled text and the
/// current file: the new file text, or `None` when nothing would change.
pub fn plan_system_hosts_write(
    enabled: &str,
    current: &str,
    remove_duplicates: bool,
    mode: WriteMode,
    windows: bool,
) -> (res: Option<String>)
    ensures
        opt_chars(res) == system_hosts_update(enabled@, current@, remove_duplicates, mode, windows),
{
    let lf = normalize_to_lf(enabled);
    let content = if remove_duplicates { remove_duplicate_lines(lf.as_str()) } else { lf };
    let cur = normalize_to_lf(current);
    let final_text = match mode {
        WriteMode::Append => make_append_content(cur.as_str(), content.as_str()),
        WriteMode::Overwrite => content,
    };
    if same_text(&final_text, &cur) {
        None
    } else if windows {
        Some(lf_to_crlf_text(final_text.as_str()))
    } else {
        Some(final_text)
    }
}

/// The label of a history entry for a write in this mode.
pub open spec fn history_label_text(mode: WriteMode) -> Seq<char> {
    match mode {
        WriteMode::Append => "追加模式"@,
        WriteMode::Overwrite => "覆盖模式"@,
    }
}

/// The label of a history entry for a write in this mode.
pub fn history_label(mode: WriteMode) -> (res: String)
    ensures
        res@ == history_label_text(mode),
{
    match mode {
        WriteMode::Append => to_owned_string("追加模式"),
        WriteMode::Overwrite => to_owned_string("覆盖模式"),
    }
}

/// The write mode of the loaded settings, append when none could be loaded.
pub fn get_write_mode(config: Option<&AppConfig>) -> (res: WriteMode)
    ensures
        res == match config {
            Some(c) => c.write_mode,
            None => WriteMode::Append,
        },
{
    match config {
        Some(c) => c.write_mode,
        None => WriteMode::Append,
    }
}

/// The history limit of the loaded settings, 50 when none could be loaded.
pub fn get_history_limit(config: Option<&AppConfig>) -> (res: i32)
    ensures
        res == match config {
            Some(c) => c.history_limit,
            None => 50,
        },
{
    match config {
        Some(c) => c.history_limit,
        None => 50,
    }
}

// ---------------------------------------------------------------------
// Switching an entry, refreshing a remote entry
// ---------------------------------------------------------------------

/// Switches the first entry with the id to the opposite state, under the
/// choice mode of the settings; returns the new list and the new state.
pub fn toggle_item(list: Vec<HostsListObject>, config: &AppConfig, id: &str) -> (res: Result<(Vec<HostsListObject>, bool), HostzError>)
    ensures
        match first_match(list@, id@) {
            Some(i) => res matches Ok((l, on)) && on == !list@[i].on
                && entries(l@) == on_state_after(entries(list@), i, id@, on, config.choice_mode),
            None => res matches Err(HostzError::ItemNotFound { id: e }) && e@ == id@,
        },
{
    proof { lemma_first_match_sound(list@, id@); }
    match position_of_id(list.as_slice(), id) {
        None => Err(HostzError::ItemNotFound { id: to_owned_string(id) }),
        Some(i) => {
            let new_on = !list[i].on;
            let new_list = set_on_state_of_item(list, id, new_on, config.choice_mode,
                config.multi_chose_folder_switch_all);
            Ok((new_list, new_on))
        },
    }
}

/// The URL to refresh the first entry with the id from.
pub fn remote_url_of(list: &[HostsListObject], id: &str) -> (res: Result<String, HostzError>)
    ensures
        match first_match(list@, id@) {
            Some(i) => match list@[i].url {
                Some(u) => res matches Ok(r) && r@ == u@,
                None => res matches Err(HostzError::NotRemote),
            },
            None => res matches Err(HostzError::ItemNotFound { id: e }) && e@ == id@,
        },
{
    proof { lemma_first_match_sound(list@, id@); }
    match position_of_id(list, id) {
        None => Err(HostzError::ItemNotFound { id: to_owned_string(id) }),
        Some(i) => match &list[i].url {
            Some(u) => Ok(u.clone()),
            None => Err(HostzError::NotRemote),
        },
    }
}

/// The list after a refresh of the first entry with the id at `now_ms`:
/// every entry with that id becomes that entry with its refresh time set.
pub fn mark_refreshed(list: &[HostsListObject], id: &str, now_ms: i64) -> (res: Result<Vec<HostsListObject>, HostzError>)
    ensures
        match first_match(list@, id@) {
            Some(i) => res matches Ok(l) && l@.len() == list@.len()
                && forall|j: int| 0 <= j < list@.len() ==> #[trigger] l@[j]@ == (
                    if list@[j].id@ == id@ {
                        HostsEntry { last_refresh_ms: Some(now_ms), ..list@[i]@ }
                    } else {
                        list@[j]@
                    }),
            None => res matches Err(HostzError::ItemNotFound { id: e }) && e@ == id@,
        },
{
    proof { lemma_first_match_sound(list@, id@); }
    match position_of_id(list, id) {
        None => Err(HostzError::ItemNotFound { id: to_owned_string(id) }),
        Some(i) => {
            let mut updated = list[i].clone();
            updated.last_refresh_ms = Some(now_ms);
            Ok(update_one_item(list, &updated))
        },
    }
}

/// The history entry of a write of this text in this mode, under this id
/// at this time (milliseconds), labelled by the mode.
pub fn history_entry(id: String, now_ms: i64, content: String, mode: WriteMode) -> (res: HostsHistoryObject)
    ensures
        res.id@ == id@,
        res.add_time_ms == now_ms,
        res.content@ == content@,
        res.label matches Some(l) && l@ == history_label_text(mode),
{
    HostsHistoryObject {
        id,
        content,
        add_time_ms: now_ms,
        label: Some(history_label(mode)),
    }
}

// ---------------------------------------------------------------------
// Laws of the system hosts text
// ---------------------------------------------------------------------

/// The text holds no carriage return.
pub open spec fn no_cr(s: Seq<char>) -> bool {
    forall|i: int| 0 <= i < s.len() ==> #[trigger] s[i] != '\r'
}

/// Every carriage return of the text is followed by a newline.
pub open spec fn cr_only_before_lf(s: Seq<char>) -> bool {
    forall|i: int| 0 <= i < s.len() && #[trigger] s[i] == '\r' ==> i + 1 < s.len() && s[i + 1] == '\n'
}

/// Two carriage returns follow each other somewhere in the text.
pub open spec fn has_double_cr(s: Seq<char>) -> bool {
    exists|i: int| 0 <= i && i + 1 < s.len() && #[trigger] s[i] == '\r' && s[i + 1] == '\r'
}

proof fn lemma_marker_chars()
    ensures
        marker().len() == 35,
        marker()[0] == '#',
        forall|i: int| 0 < i < marker().len() ==> #[trigger] marker()[i] != '#',
        forall|i: int| 0 <= i < marker().len() ==> #[trigger] marker()[i] != '\n' && marker()[i] != '\r',
{
    reveal_strlit("# --- SWITCHHOSTS_CONTENT_START ---");
}

proof fn lemma_newline_chars()
    ensures
        "\n"@ == seq!['\n'],
{
    reveal_strlit("\n");
    assert("\n"@ =~= seq!['\n']);
}

/// With the marker found at `p`, the appended text has its first marker
/// at `p` too.
proof fn lemma_append_found_first(cur: Seq<char>, new_content: Seq<char>, p: int)
    requires
        is_first_occurrence(cur, marker(), p),
    ensures
        is_first_occurrence(cur.subrange(0, p) + marker() + "\n"@ + new_content, marker(), p),
{
    lemma_marker_chars();
    lemma_newline_chars();
    let m = marker();
    let r = cur.subrange(0, p) + m + "\n"@ + new_content;
    assert(r.subrange(p, p + m.len()) =~= m);
    assert forall|j: int| 0 <= j < p implies !#[trigger] occurs_at(r, m, j) by {
        if occurs_at(r, m, j) {
            if j + m.len() <= p {
                assert(r.subrange(j, j + m.len()) =~= cur.subrange(j, j + m.len()));
                assert(occurs_at(cur, m, j));
            } else {
                assert(r[p] == '#');
                assert(r.subrange(j, j + m.len())[p - j] == r[p]);
                assert(m[p - j] != '#');
            }
        }
    }
}

/// Without a marker, the appended text has its first marker where the
/// marker was put.
proof fn lemma_append_missing_first(cur: Seq<char>, new_content: Seq<char>)
    requires
        forall|j: int| !#[trigger] occurs_at(cur, marker(), j),
    ensures
        ({
            let sep = if cur.len() == 0 || cur.last() == '\n' { Seq::<char>::empty() } else { "\n"@ };
            is_first_occurrence(cur + sep + "\n"@ + marker() + "\n"@ + new_content, marker(),
                (cur.len() + sep.len() + 1) as int)
        }),
{
    lemma_marker_chars();
    lemma_newline_chars();
    let m = marker();
    let sep = if cur.len() == 0 || cur.last() == '\n' { Seq::<char>::empty() } else { "\n"@ };
    let r = cur + sep + "\n"@ + m + "\n"@ + new_content;
    let q = (cur.len() + sep.len() + 1) as int;
    assert(r.subrange(q, q + m.len()) =~= m);
    assert(r[cur.len() as int] == '\n');
    assert(r[q - 1] == '\n');
    assert forall|j: int| 0 <= j < q implies !#[trigger] occurs_at(r, m, j) by {
        if occurs_at(r, m, j) {
            if j + m.len() <= cur.len() {
                assert(r.subrange(j, j + m.len()) =~= cur.subrange(j, j + m.len()));
                assert(occurs_at(cur, m, j));
            } else if j <= cur.len() {
                let t = cur.len() as int;
                assert(r.subrange(j, j + m.len())[t - j] == r[t]);
                assert(m[t - j] != '\n');
            } else {
                let t = q - 1;
                assert(j == t);
                assert(r.subrange(j, j + m.len())[0] == r[t]);
            }
        }
    }
}

/// Appending the same text a second time changes nothing: the text up to
/// the marker is kept, and what follows the marker is already the new text.
pub proof fn lemma_append_content_idempotent(current: Seq<char>, new_content: Seq<char>)
    ensures
        append_content(append_content(current, new_content), new_content)
            == append_content(current, new_content),
{
    lemma_find_first(current, marker());
    let r = append_content(current, new_content);
    match find_first(current, marker()) {
        Some(p) => {
            lemma_append_found_first(current, new_content, p);
            lemma_find_first_is(r, marker(), p);
            assert(r.subrange(0, p) =~= current.subrange(0, p));
        },
        None => {
            lemma_append_missing_first(current, new_content);
            lemma_newline_chars();
            let sep = if current.len() == 0 || current.last() == '\n' { Seq::<char>::empty() } else { "\n"@ };
            let q = (current.len() + sep.len() + 1) as int;
            lemma_find_first_is(r, marker(), q);
            assert(r.subrange(0, q) =~= current + sep + "\n"@);
        },
    }
}

/// After `pre`, the marker and a newline, the marker does not occur again
/// when the text that follows lacks it.
proof fn lemma_no_marker_after(pre: Seq<char>, new_content: Seq<char>, j: int)
    requires
        forall|k: int| !#[trigger] occurs_at(new_content, marker(), k),
        j > pre.len(),
    ensures
        !occurs_at(pre + marker() + "\n"@ + new_content, marker(), j),
{
    lemma_marker_chars();
    lemma_newline_chars();
    let m = marker();
    let r = pre + m + "\n"@ + new_content;
    let p = pre.len() as int;
    if occurs_at(r, m, j) {
        assert(r.subrange(j, j + m.len())[0] == r[j]);
        if j < p + 35 {
            assert(r[j] == m[j - p]);
        } else if j == p + 35 {
            assert(r[j] == '\n');
        } else {
            let k = j - p - 36;
            assert(r.subrange(j, j + m.len()) =~= new_content.subrange(k, k + m.len()));
            assert(occurs_at(new_content, m, k));
        }
    }
}

/// After appending a text that lacks the marker, the marker occurs exactly
/// once: where `find_first` finds it.
pub proof fn lemma_append_marker_once(current: Seq<char>, new_content: Seq<char>)
    requires
        forall|k: int| !#[trigger] occurs_at(new_content, marker(), k),
    ensures
        ({
            let r = append_content(current, new_content);
            &&& find_first(r, marker()) is Some
            &&& forall|j: int| #[trigger] occurs_at(r, marker(), j) ==> find_first(r, marker()) == Some(j)
        }),
{
    lemma_find_first(current, marker());
    let r = append_content(current, new_content);
    let m = marker();
    match find_first(current, m) {
        Some(p) => {
            lemma_append_found_first(current, new_content, p);
            lemma_find_first_is(r, m, p);
            let pre = current.subrange(0, p);
            assert forall|j: int| #[trigger] occurs_at(r, m, j) implies find_first(r, m) == Some(j) by {
                if j > p {
                    lemma_no_marker_after(pre, new_content, j);
                }
            }
        },
        None => {
            lemma_append_missing_first(current, new_content);
            lemma_newline_chars();
            let sep = if current.len() == 0 || current.last() == '\n' { Seq::<char>::empty() } else { "\n"@ };
            let q = (current.len() + sep.len() + 1) as int;
            lemma_find_first_is(r, m, q);
            let pre = current + sep + "\n"@;
            assert(r =~= pre + m + "\n"@ + new_content);
            assert forall|j: int| #[trigger] occurs_at(r, m, j) implies find_first(r, m) == Some(j) by {
                if j > q {
                    lemma_no_marker_after(pre, new_content, j);
                }
            }
        },
    }
}

/// Turning `\n` into `\r\n` and back gives the text again.
pub proof fn lemma_crlf_round_trip(y: Seq<char>)
    ensures
        crlf_to_lf(lf_to_crlf(y)) == y,
    decreases y.len(),
{
    if y.len() > 0 {
        let rest = y.subrange(1, y.len() as int);
        lemma_crlf_round_trip(rest);
        let lr = lf_to_crlf(rest);
        lemma_lf_to_crlf_first(rest);
        if y[0] == '\n' {
            let s = seq!['\r', '\n'] + lr;
            assert(s.subrange(2, s.len() as int) =~= lr);
        } else {
            let s = seq![y[0]] + lr;
            assert(s.subrange(1, s.len() as int) =~= lr);
        }
        assert(y =~= seq![y[0]] + rest);
    }
}

/// A text with `\n` made `\r\n` does not start with `\n`.
proof fn lemma_lf_to_crlf_first(y: Seq<char>)
    ensures
        lf_to_crlf(y).len() > 0 ==> lf_to_crlf(y)[0] != '\n',
        lf_to_crlf(y).len() >= y.len(),
    decreases y.len(),
{
    if y.len() > 0 {
        lemma_lf_to_crlf_first(y.subrange(1, y.len() as int));
    }
}

/// A text without carriage returns is unchanged by `crlf_to_lf`.
pub proof fn lemma_crlf_to_lf_without_cr(x: Seq<char>)
    requires
        no_cr(x),
    ensures
        crlf_to_lf(x) == x,
    decreases x.len(),
{
    if x.len() > 0 {
        let rest = x.subrange(1, x.len() as int);
        assert(no_cr(rest)) by {
            assert forall|i: int| 0 <= i < rest.len() implies #[trigger] rest[i] != '\r' by {
                assert(rest[i] == x[i + 1]);
            }
        }
        lemma_crlf_to_lf_without_cr(rest);
        assert(x[0] != '\r');
        assert(x =~= seq![x[0]] + rest);
    }
}

/// When every carriage return stands before a newline, `crlf_to_lf`
/// leaves none.
pub proof fn lemma_crlf_to_lf_removes_cr(x: Seq<char>)
    requires
        cr_only_before_lf(x),
    ensures
        no_cr(crlf_to_lf(x)),
    decreases x.len(),
{
    if x.len() > 0 {
        if x.len() >= 2 && x[0] == '\r' && x[1] == '\n' {
            let rest = x.subrange(2, x.len() as int);
            assert(cr_only_before_lf(rest)) by {
                assert forall|i: int| 0 <= i < rest.len() && #[trigger] rest[i] == '\r'
                    implies i + 1 < rest.len() && rest[i + 1] == '\n' by {
                    assert(rest[i] == x[i + 2]);
                }
            }
            lemma_crlf_to_lf_removes_cr(rest);
            let r = seq!['\n'] + crlf_to_lf(rest);
            assert forall|i: int| 0 <= i < r.len() implies #[trigger] r[i] != '\r' by {
                if i > 0 {
                    assert(r[i] == crlf_to_lf(rest)[i - 1]);
                }
            }
        } else {
            let rest = x.subrange(1, x.len() as int);
            assert(x[0] != '\r');
            assert(cr_only_before_lf(rest)) by {
                assert forall|i: int| 0 <= i < rest.len() && #[trigger] rest[i] == '\r'
                    implies i + 1 < rest.len() && rest[i + 1] == '\n' by {
                    assert(rest[i] == x[i + 1]);
                }
            }
            lemma_crlf_to_lf_removes_cr(rest);
            let r = seq![x[0]] + crlf_to_lf(rest);
            assert forall|i: int| 0 <= i < r.len() implies #[trigger] r[i] != '\r' by {
                if i > 0 {
                    assert(r[i] == crlf_to_lf(rest)[i - 1]);
                }
            }
        }
    }
}

/// In a text without carriage returns, `lf_to_crlf` puts each one it
/// adds just before a newline.
proof fn lemma_lf_to_crlf_cr_before_lf(y: Seq<char>)
    requires
        no_cr(y),
    ensures
        cr_only_before_lf(lf_to_crlf(y)),
    decreases y.len(),
{
    if y.len() > 0 {
        let rest = y.subrange(1, y.len() as int);
        assert(no_cr(rest)) by {
            assert forall|i: int| 0 <= i < rest.len() implies #[trigger] rest[i] != '\r' by {
                assert(rest[i] == y[i + 1]);
            }
        }
        lemma_lf_to_crlf_cr_before_lf(rest);
        let lr = lf_to_crlf(rest);
        if y[0] == '\n' {
            let r = seq!['\r', '\n'] + lr;
            assert forall|i: int| 0 <= i < r.len() && #[trigger] r[i] == '\r'
                implies i + 1 < r.len() && r[i + 1] == '\n' by {
                if i >= 2 {
                    assert(r[i] == lr[i - 2]);
                    assert(r[i + 1] == lr[i - 1]);
                }
            }
        } else {
            let r = seq![y[0]] + lr;
            assert forall|i: int| 0 <= i < r.len() && #[trigger] r[i] == '\r'
                implies i + 1 < r.len() && r[i + 1] == '\n' by {
                if i >= 1 {
                    assert(r[i] == lr[i - 1]);
                    assert(r[i + 1] == lr[i]);
                }
            }
        }
    }
}

/// Writing a file by hand on Windows never doubles a carriage return when
/// every carriage return of the given text already stands before a
/// newline.
pub proof fn lemma_normalized_text_has_no_double_cr(x: Seq<char>)
    requires
        cr_only_before_lf(x),
    ensures
        !has_double_cr(lf_to_crlf(crlf_to_lf(x))),
        !has_double_cr(crlf_to_lf(x)),
{
    lemma_crlf_to_lf_removes_cr(x);
    lemma_lf_to_crlf_cr_before_lf(crlf_to_lf(x));
    let w = lf_to_crlf(crlf_to_lf(x));
    if has_double_cr(w) {
        let i = choose|i: int| 0 <= i && i + 1 < w.len() && #[trigger] w[i] == '\r' && w[i + 1] == '\r';
        assert(w[i + 1] == '\n');
    }
    if has_double_cr(crlf_to_lf(x)) {
        let i = choose|i: int| 0 <= i && i + 1 < crlf_to_lf(x).len() && #[trigger] crlf_to_lf(x)[i] == '\r'
            && crlf_to_lf(x)[i + 1] == '\r';
        assert(crlf_to_lf(x)[i] != '\r');
    }
}

/// The appended text holds no carriage return when neither part does.
proof fn lemma_append_content_no_cr(current: Seq<char>, new_content: Seq<char>)
    requires
        no_cr(current),
        no_cr(new_content),
    ensures
        no_cr(append_content(current, new_content)),
{
    lemma_marker_chars();
    lemma_newline_chars();
    let r = append_content(current, new_content);
    lemma_find_first(current, marker());
    match find_first(current, marker()) {
        Some(p) => {
            let a = current.subrange(0, p);
            assert forall|i: int| 0 <= i < r.len() implies #[trigger] r[i] != '\r' by {
                if i < p {
                    assert(r[i] == current[i]);
                } else if i < p + 35 {
                    assert(r[i] == marker()[i - p]);
                } else if i > p + 35 {
                    assert(r[i] == new_content[i - p - 36]);
                }
            }
        },
        None => {
            let sep = if current.len() == 0 || current.last() == '\n' { Seq::<char>::empty() } else { "\n"@ };
            let c = current.len() as int;
            let q = c + sep.len() + 1;
            assert forall|i: int| 0 <= i < r.len() implies #[trigger] r[i] != '\r' by {
                if i < c {
                    assert(r[i] == current[i]);
                } else if i < q {
                } else if i < q + 35 {
                    assert(r[i] == marker()[i - q]);
                } else if i > q + 35 {
                    assert(r[i] == new_content[i - q - 36]);
                }
            }
        },
    }
}

/// Applying the same enabled text a second time writes nothing: after the
/// system file was written with the planned text, planning again with the
/// same enabled text, duplicate setting and mode finds the file up to
/// date. Off Windows this
/// holds for texts without carriage returns (a lone `\r` before `\r\n`
/// turns into a new `\r\n` pair on the first pass).
pub proof fn lemma_second_apply_writes_nothing(
    enabled: Seq<char>,
    current: Seq<char>,
    remove_duplicates: bool,
    mode: WriteMode,
    windows: bool,
)
    requires
        system_hosts_update(enabled, current, remove_duplicates, mode, windows) is Some,
        windows || (no_cr(enabled) && no_cr(current)),
    ensures
        system_hosts_update(enabled, system_hosts_update(enabled, current, remove_duplicates, mode, windows)->0,
            remove_duplicates, mode, windows) is None,
{
    let content = prepared_content(enabled, remove_duplicates);
    let cur = crlf_to_lf(current);
    let final_text = match mode {
        WriteMode::Append => append_content(cur, content),
        WriteMode::Overwrite => content,
    };
    let written = system_hosts_update(enabled, current, remove_duplicates, mode, windows)->0;
    if windows {
        lemma_crlf_round_trip(final_text);
        assert(crlf_to_lf(written) == final_text);
    } else {
        lemma_crlf_to_lf_without_cr(enabled);
        lemma_crlf_to_lf_without_cr(current);
        if remove_duplicates {
            lemma_dedup_adds_no_char(enabled, '\r');
        }
        if mode == WriteMode::Append {
            lemma_append_content_no_cr(cur, content);
        }
        lemma_crlf_to_lf_without_cr(final_text);
    }
    if mode == WriteMode::Append {
        lemma_append_content_idempotent(cur, content);
    }
}

} // verus!
