//! Lookups and edits of the hosts list, and the text of entries.

use vstd::prelude::*;
use crate::error::HostzError;
use crate::models::hosts::{HostsListObject, HostsContentObject, HostsType, HostsEntry, entries, opt_chars};
use crate::text::{lemma_split_pieces_lack_sep, lemma_split_upto_append, lemma_split_upto_prefix, push_str, str_eq, split_upto, split_on, char_vecs_view, split_chars, chars_equal, chars_of, push_char, string_from_chars};

verus! {

// ---------------------------------------------------------------------
// Lookup by id
// ---------------------------------------------------------------------

/// `i` is the first position of the list whose entry has this id.
pub open spec fn is_first_match(list: Seq<HostsListObject>, id: Seq<char>, i: int) -> bool {
    &&& 0 <= i < list.len()
    &&& list[i].id@ == id
    &&& forall|j: int| 0 <= j < i ==> #[trigger] list[j].id@ != id
}

/// Some entry of the list has this id.
pub open spec fn has_id(list: Seq<HostsListObject>, id: Seq<char>) -> bool {
    exists|i: int| 0 <= i < list.len() && #[trigger] list[i].id@ == id
}

/// The first position of the list whose entry has this id.
pub open spec fn first_match(list: Seq<HostsListObject>, id: Seq<char>) -> Option<int> {
    if has_id(list, id) {
        Some(choose|i: int| is_first_match(list, id, i))
    } else {
        None
    }
}

/// The first position with the id is the one that `first_match` names.
pub proof fn lemma_first_match_is(list: Seq<HostsListObject>, id: Seq<char>, i: int)
    requires
        is_first_match(list, id, i),
    ensures
        first_match(list, id) == Some(i),
{
    assert(has_id(list, id));
    let k = choose|k: int| is_first_match(list, id, k);
    assert(is_first_match(list, id, k));
    if k < i {
        assert(list[k].id@ != id);
    }
    if i < k {
        assert(list[i].id@ != id);
    }
}

/// When some entry has the id, `first_match` names a first position.
pub proof fn lemma_first_match_sound(list: Seq<HostsListObject>, id: Seq<char>)
    ensures
        first_match(list, id) matches Some(i) ==> is_first_match(list, id, i),
        first_match(list, id) is None ==> forall|j: int| 0 <= j < list.len() ==> #[trigger] list[j].id@ != id,
{
    if has_id(list, id) {
        let k = choose|k: int| 0 <= k < list.len() && #[trigger] list[k].id@ == id;
        lemma_exists_first(list, id, k);
    }
}

proof fn lemma_exists_first(list: Seq<HostsListObject>, id: Seq<char>, k: int)
    requires
        0 <= k < list.len(),
        list[k].id@ == id,
    ensures
        exists|i: int| is_first_match(list, id, i),
    decreases k,
{
    if exists|j: int| 0 <= j < k && #[trigger] list[j].id@ == id {
        let j = choose|j: int| 0 <= j < k && #[trigger] list[j].id@ == id;
        lemma_exists_first(list, id, j);
    } else {
        assert(is_first_match(list, id, k));
    }
}

/// The position of the first entry with this id.
pub fn position_of_id(list: &[HostsListObject], id: &str) -> (res: Option<usize>)
    ensures
        res matches Some(i) ==> is_first_match(list@, id@, i as int),
        match first_match(list@, id@) {
            Some(i) => res == Some(i as usize),
            None => res is None,
        },
{
    let n = list.len();
    let mut i: usize = 0;
    while i < n
        invariant
            n == list@.len(),
            i <= n,
            forall|j: int| 0 <= j < i ==> #[trigger] list@[j].id@ != id@,
        decreases n - i,
    {
        if str_eq(list[i].id.as_str(), id) {
            proof { lemma_first_match_is(list@, id@, i as int); }
            return Some(i);
        }
        i = i + 1;
    }
    None
}

/// The entries of the list, one reference for each, in order.
pub fn flatten(list: &[HostsListObject]) -> (res: Vec<&HostsListObject>)
    ensures
        res@.len() == list@.len(),
        forall|i: int| 0 <= i < list@.len() ==> *res@[i] == list@[i],
{
    let mut res: Vec<&HostsListObject> = Vec::new();
    let n = list.len();
    let mut i: usize = 0;
    while i < n
        invariant
            n == list@.len(),
            i <= n,
            res@.len() == i,
            forall|j: int| 0 <= j < i ==> *res@[j] == list@[j],
        decreases n - i,
    {
        res.push(&list[i]);
        i = i + 1;
    }
    res
}

/// The first entry with this id.
pub fn find_item_by_id<'a>(list: &'a [HostsListObject], id: &str) -> (res: Option<&'a HostsListObject>)
    ensures
        match first_match(list@, id@) {
            Some(i) => res matches Some(r) && *r == list@[i],
            None => res is None,
        },
{
    match position_of_id(list, id) {
        Some(i) => Some(&list[i]),
        None => None,
    }
}

/// The first entry with this id, to be changed in place.
pub fn find_item_by_id_mut<'a>(list: &'a mut [HostsListObject], id: &str) -> (res: Option<&'a mut HostsListObject>)
    ensures
        match first_match(old(list)@, id@) {
            Some(i) => res matches Some(r) && *r == old(list)@[i]
                && final(list)@ == old(list)@.update(i, *final(r)),
            None => res is None && final(list)@ == old(list)@,
        },
{
    match position_of_id(list, id) {
        Some(i) => Some(&mut list[i]),
        None => None,
    }
}


// ---------------------------------------------------------------------
// Edits of the list
// ---------------------------------------------------------------------

/// A copy of the list in which every entry with the id of `updated` is
/// replaced by `updated`.
pub fn update_one_item(list: &[HostsListObject], updated: &HostsListObject) -> (res: Vec<HostsListObject>)
    ensures
        res@.len() == list@.len(),
        forall|i: int| 0 <= i < list@.len() ==> #[trigger] res@[i]@ == (
            if list@[i].id@ == updated.id@ { updated@ } else { list@[i]@ }),
{
    let mut res: Vec<HostsListObject> = Vec::new();
    let n = list.len();
    let mut i: usize = 0;
    while i < n
        invariant
            n == list@.len(),
            i <= n,
            res@.len() == i,
            forall|j: int| 0 <= j < i ==> #[trigger] res@[j]@ == (
                if list@[j].id@ == updated.id@ { updated@ } else { list@[j]@ }),
        decreases n - i,
    {
        if str_eq(list[i].id.as_str(), updated.id.as_str()) {
            res.push(updated.clone());
        } else {
            res.push(list[i].clone());
        }
        i = i + 1;
    }
    res
}

/// The entry with its on/off state set.
pub open spec fn with_on(e: HostsEntry, on: bool) -> HostsEntry {
    HostsEntry { on, ..e }
}

/// The list after switching the first entry with the id on or off.
///
/// With `choice_mode == 1` (one entry at a time), switching an entry on
/// switches off every entry with another id.
pub open spec fn on_state_after(
    list: Seq<HostsEntry>,
    first: int,
    id: Seq<char>,
    on: bool,
    choice_mode: i32,
) -> Seq<HostsEntry> {
    Seq::new(list.len(), |j: int|
        if j == first {
            with_on(list[j], on)
        } else if on && choice_mode == 1 && list[j].id != id {
            with_on(list[j], false)
        } else {
            list[j]
        })
}

/// Switches the first entry with the id on or off, and returns the list.
///
/// When no entry has the id, the list comes back unchanged. When the entry
/// is switched on and `choice_mode == 1`, every entry with another id is
/// switched off. The last argument is accepted for the interface and does
/// not change the result.
pub fn set_on_state_of_item(
    list: Vec<HostsListObject>,
    id: &str,
    on: bool,
    choice_mode: i32,
    _multi_chose_folder_switch_all: bool,
) -> (res: Vec<HostsListObject>)
    ensures
        match first_match(list@, id@) {
            Some(i) => entries(res@) == on_state_after(entries(list@), i, id@, on, choice_mode),
            None => entries(res@) == entries(list@),
        },
{
    let mut list = list;
    let ghost old_list = list@;
    let first = match position_of_id(list.as_slice(), id) {
        Some(i) => i,
        None => {
            return list;
        },
    };
    list[first].on = on;
    if !on {
        assert(entries(list@) =~= on_state_after(entries(old_list), first as int, id@, on, choice_mode));
        return list;
    }
    if choice_mode == 1 {
        let n = list.len();
        let mut k: usize = 0;
        while k < n
            invariant
                n == list@.len(),
                n == old_list.len(),
                k <= n,
                on,
                choice_mode == 1,
                0 <= first < n,
                is_first_match(old_list, id@, first as int),
                forall|j: int| 0 <= j < n ==> #[trigger] list@[j]@ == (
                    if j < k && old_list[j].id@ != id@ {
                        with_on(old_list[j]@, false)
                    } else if j == first {
                        with_on(old_list[j]@, on)
                    } else {
                        old_list[j]@
                    }),
            decreases n - k,
        {
            let ghost before = list@;
            assert(list@[k as int]@.id == list@[k as int].id@);
            assert(list@[first as int]@.id == id@);
            if !str_eq(list[k].id.as_str(), id) {
                list[k].on = false;
                assert(list@[k as int]@ =~= with_on(old_list[k as int]@, false));
            }
            assert forall|j: int| 0 <= j < n && j != k implies #[trigger] list@[j] == before[j] by {}
            k = k + 1;
        }
    }
    assert(entries(list@) =~= on_state_after(entries(old_list), first as int, id@, on, choice_mode));
    list
}

/// The entries without those that have this id, in order.
pub open spec fn without_id(list: Seq<HostsEntry>, id: Seq<char>) -> Seq<HostsEntry> {
    list.filter(|e: HostsEntry| e.id != id)
}

/// The list without the entries that have this id.
pub fn delete_item_by_id(list: &[HostsListObject], id: &str) -> (res: Vec<HostsListObject>)
    ensures
        entries(res@) == without_id(entries(list@), id@),
{
    let mut res: Vec<HostsListObject> = Vec::new();
    let n = list.len();
    let mut i: usize = 0;
    let ghost keep = |e: HostsEntry| e.id != id@;
    while i < n
        invariant
            n == list@.len(),
            i <= n,
            keep == (|e: HostsEntry| e.id != id@),
            entries(res@) == entries(list@).take(i as int).filter(keep),
        decreases n - i,
    {
        proof {
            reveal_with_fuel(Seq::filter, 1);
            assert(entries(list@).take(i + 1).drop_last() =~= entries(list@).take(i as int));
        }
        if !str_eq(list[i].id.as_str(), id) {
            let e = list[i].clone();
            res.push(e);
            assert(entries(res@) =~= entries(list@).take(i + 1).filter(keep));
        } else {
            assert(entries(res@) =~= entries(list@).take(i + 1).filter(keep));
        }
        i = i + 1;
    }
    assert(entries(list@).take(n as int) =~= entries(list@));
    res
}

/// The id of the entry that follows the first entry with this id.
pub fn get_next_selected_item(list: &[HostsListObject], current_id: &str) -> (res: Option<String>)
    ensures
        match first_match(list@, current_id@) {
            Some(i) => if i + 1 < list@.len() {
                res matches Some(s) && s@ == list@[i + 1].id@
            } else {
                res is None
            },
            None => res is None,
        },
{
    match position_of_id(list, current_id) {
        Some(i) => {
            if i < list.len() - 1 {
                Some(list[i + 1].id.clone())
            } else {
                None
            }
        },
        None => None,
    }
}


// ---------------------------------------------------------------------
// The text of an entry
// ---------------------------------------------------------------------

/// The stored text with this id: that of the first stored object with the
/// id, or empty text when none has it.
pub open spec fn stored_text(contents: Seq<HostsContentObject>, id: Seq<char>) -> Seq<char>
    decreases contents.len(),
{
    if contents.len() == 0 {
        Seq::empty()
    } else if contents[0].id@ == id {
        contents[0].content@
    } else {
        stored_text(contents.drop_first(), id)
    }
}

/// The text that separates two parts of a concatenation: nothing before
/// the first part, an empty line after any other.
pub open spec fn joined(acc: Seq<char>, part: Seq<char>) -> Seq<char> {
    if acc.len() == 0 {
        part
    } else {
        acc + "\n\n"@ + part
    }
}

/// The text of the entry with this id.
///
/// A local or remote entry has its stored text. A group has, for each id
/// it includes that names an entry of the list, a line `# file: <title>`
/// followed by that entry's text, the parts separated by an empty line.
/// `fuel` bounds how deep groups may nest; `None` means they nest deeper.
/// An id that names no entry has empty text.
pub open spec fn resolved_text(
    list: Seq<HostsListObject>,
    contents: Seq<HostsContentObject>,
    id: Seq<char>,
    fuel: nat,
) -> Option<Seq<char>>
    decreases fuel, 0int, 0int,
{
    match first_match(list, id) {
        None => Some(Seq::empty()),
        Some(i) => {
            if 0 <= i < list.len() {
                match list[i].type_ {
                    HostsType::Group => {
                        if fuel == 0 {
                            None
                        } else {
                            let incs = match list[i].included {
                                Some(v) => v@,
                                None => Seq::empty(),
                            };
                            group_text(list, contents, incs, incs.len(), (fuel - 1) as nat)
                        }
                    },
                    _ => Some(stored_text(contents, id)),
                }
            } else {
                None
            }
        },
    }
}

/// The text of a group from the first `k` ids it includes.
pub open spec fn group_text(
    list: Seq<HostsListObject>,
    contents: Seq<HostsContentObject>,
    incs: Seq<String>,
    k: nat,
    fuel: nat,
) -> Option<Seq<char>>
    decreases fuel, 1int, k,
{
    if k == 0 || k > incs.len() {
        Some(Seq::empty())
    } else {
        match group_text(list, contents, incs, (k - 1) as nat, fuel) {
            None => None,
            Some(acc) => {
                let inc = incs[k - 1]@;
                match first_match(list, inc) {
                    None => Some(acc),
                    Some(j) => match resolved_text(list, contents, inc, fuel) {
                        None => None,
                        Some(t) => {
                            if 0 <= j < list.len() {
                                Some(joined(acc, "# file: "@ + list[j].title@ + "\n"@ + t))
                            } else {
                                None
                            }
                        },
                    },
                }
            },
        }
    }
}

/// Once the text of a group fails to resolve, it fails for every longer
/// prefix of its ids.
proof fn lemma_group_text_stays_none(
    list: Seq<HostsListObject>,
    contents: Seq<HostsContentObject>,
    incs: Seq<String>,
    k: nat,
    m: nat,
    fuel: nat,
)
    requires
        0 < k <= m <= incs.len(),
        group_text(list, contents, incs, k, fuel) is None,
    ensures
        group_text(list, contents, incs, m, fuel) is None,
    decreases m - k,
{
    if k < m {
        lemma_group_text_stays_none(list, contents, incs, k, (m - 1) as nat, fuel);
    }
}

/// What `get_content_of_hosts` gives for an id.
pub open spec fn content_of_hosts(
    list: Seq<HostsListObject>,
    contents: Seq<HostsContentObject>,
    id: Seq<char>,
) -> Option<Seq<char>> {
    resolved_text(list, contents, id, list.len())
}

/// The stored text with this id.
pub fn stored_content(contents: &[HostsContentObject], id: &str) -> (res: String)
    ensures
        res@ == stored_text(contents@, id@),
{
    let n = contents.len();
    let mut i: usize = 0;
    assert(contents@.skip(0) =~= contents@);
    while i < n
        invariant
            n == contents@.len(),
            i <= n,
            stored_text(contents@, id@) == stored_text(contents@.skip(i as int), id@),
        decreases n - i,
    {
        assert(contents@.skip(i as int).drop_first() =~= contents@.skip(i + 1));
        if str_eq(contents[i].id.as_str(), id) {
            return contents[i].content.clone();
        }
        i = i + 1;
    }
    String::new()
}

fn resolve(
    list: &[HostsListObject],
    contents: &[HostsContentObject],
    id: &str,
    fuel: usize,
) -> (res: Option<String>)
    ensures
        opt_chars(res) == resolved_text(list@, contents@, id@, fuel as nat),
    decreases fuel, 0int, 0int,
{
    match position_of_id(list, id) {
        None => Some(String::new()),
        Some(i) => {
            match list[i].type_ {
                HostsType::Group => {
                    if fuel == 0 {
                        None
                    } else {
                        match &list[i].included {
                            Some(v) => resolve_group(list, contents, v, fuel - 1),
                            None => resolve_group(list, contents, &Vec::new(), fuel - 1),
                        }
                    }
                },
                _ => Some(stored_content(contents, id)),
            }
        },
    }
}

fn resolve_group(
    list: &[HostsListObject],
    contents: &[HostsContentObject],
    incs: &Vec<String>,
    fuel: usize,
) -> (res: Option<String>)
    ensures
        opt_chars(res) == group_text(list@, contents@, incs@, incs@.len(), fuel as nat),
    decreases fuel, 1int, 0int,
{
    let mut acc = String::new();
    let n = incs.len();
    let mut k: usize = 0;
    while k < n
        invariant
            n == incs@.len(),
            k <= n,
            group_text(list@, contents@, incs@, k as nat, fuel as nat) == Some(acc@),
        decreases n - k,
    {
        let inc = incs[k].as_str();
        match position_of_id(list, inc) {
            None => {},
            Some(j) => {
                match resolve(list, contents, inc, fuel) {
                    None => {
                        proof {
                            lemma_group_text_stays_none(list@, contents@, incs@, (k + 1) as nat, n as nat, fuel as nat);
                        }
                        return None;
                    },
                    Some(t) => {
                        if !acc.as_str().is_empty() {
                            push_str(&mut acc, "\n\n");
                        }
                        push_str(&mut acc, "# file: ");
                        push_str(&mut acc, list[j].title.as_str());
                        push_str(&mut acc, "\n");
                        push_str(&mut acc, t.as_str());
                    },
                }
            },
        }
        k = k + 1;
    }
    Some(acc)
}

/// The text of the entry with this id, resolved against the stored texts.
///
/// Local and remote entries give their stored text (empty when nothing is
/// stored); a group gives the texts of the entries it includes, each after
/// a `# file: <title>` line, separated by empty lines.
pub fn get_content_of_hosts(
    list: &[HostsListObject],
    contents: &[HostsContentObject],
    id: &str,
) -> (res: Result<String, HostzError>)
    ensures
        match res {
            Ok(s) => has_id(list@, id@) && content_of_hosts(list@, contents@, id@) == Some(s@),
            Err(HostzError::ItemNotFound { id: e }) => !has_id(list@, id@) && e@ == id@,
            Err(HostzError::IncludeTooDeep { id: e }) => has_id(list@, id@)
                && content_of_hosts(list@, contents@, id@) is None && e@ == id@,
            Err(_) => false,
        },
{
    match position_of_id(list, id) {
        None => Err(HostzError::ItemNotFound { id: crate::text::to_owned_string(id) }),
        Some(_) => match resolve(list, contents, id, list.len()) {
            Some(s) => Ok(s),
            None => Err(HostzError::IncludeTooDeep { id: crate::text::to_owned_string(id) }),
        },
    }
}

/// The text of the switched-on entries among the first `k`, each non-empty
/// text separated from the one before by an empty line; `None` when one of
/// them does not resolve.
pub open spec fn enabled_text(
    list: Seq<HostsListObject>,
    contents: Seq<HostsContentObject>,
    k: nat,
) -> Option<Seq<char>>
    decreases k,
{
    if k == 0 || k > list.len() {
        Some(Seq::empty())
    } else {
        match enabled_text(list, contents, (k - 1) as nat) {
            None => None,
            Some(acc) => {
                let item = list[k - 1];
                if !item.on {
                    Some(acc)
                } else {
                    match content_of_hosts(list, contents, item.id@) {
                        None => None,
                        Some(t) => if t.len() == 0 { Some(acc) } else { Some(joined(acc, t)) },
                    }
                }
            },
        }
    }
}

proof fn lemma_enabled_text_stays_none(
    list: Seq<HostsListObject>,
    contents: Seq<HostsContentObject>,
    k: nat,
    m: nat,
)
    requires
        0 < k <= m <= list.len(),
        enabled_text(list, contents, k) is None,
    ensures
        enabled_text(list, contents, m) is None,
    decreases m - k,
{
    if k < m {
        lemma_enabled_text_stays_none(list, contents, k, (m - 1) as nat);
    }
}

/// The text of all switched-on entries, in list order, the non-empty ones
/// separated by an empty line: what goes into the system hosts file.
pub fn get_enabled_content(
    list: &[HostsListObject],
    contents: &[HostsContentObject],
) -> (res: Result<String, HostzError>)
    ensures
        match res {
            Ok(s) => enabled_text(list@, contents@, list@.len()) == Some(s@),
            Err(HostzError::IncludeTooDeep { id }) => enabled_text(list@, contents@, list@.len()) is None,
            Err(_) => false,
        },
{
    let mut acc = String::new();
    let n = list.len();
    let mut k: usize = 0;
    while k < n
        invariant
            n == list@.len(),
            k <= n,
            enabled_text(list@, contents@, k as nat) == Some(acc@),
        decreases n - k,
    {
        if list[k].on {
            match get_content_of_hosts(list, contents, list[k].id.as_str()) {
                Ok(t) => {
                    if !t.as_str().is_empty() {
                        if !acc.as_str().is_empty() {
                            push_str(&mut acc, "\n\n");
                        }
                        push_str(&mut acc, t.as_str());
                    }
                },
                Err(e) => {
                    proof {
                        assert(has_id(list@, list@[k as int].id@));
                        lemma_enabled_text_stays_none(list@, contents@, (k + 1) as nat, n as nat);
                    }
                    return Err(e);
                },
            }
        }
        k = k + 1;
    }
    Ok(acc)
}

/// Entries that are off add nothing to the enabled text.
proof fn lemma_enabled_skips_off(list: Seq<HostsListObject>, contents: Seq<HostsContentObject>, a: nat, m: nat)
    requires
        a <= m <= list.len(),
        forall|j: int| a <= j < m ==> !(#[trigger] list[j]).on,
    ensures
        enabled_text(list, contents, m) == enabled_text(list, contents, a),
    decreases m,
{
    if m > a {
        lemma_enabled_skips_off(list, contents, a, (m - 1) as nat);
        assert(!list[m - 1].on);
    }
}

/// With no entry switched on, the enabled text is empty.
pub proof fn lemma_enabled_none_on(list: Seq<HostsListObject>, contents: Seq<HostsContentObject>)
    requires
        forall|j: int| 0 <= j < list.len() ==> !(#[trigger] list[j]).on,
    ensures
        enabled_text(list, contents, list.len()) == Some(Seq::<char>::empty()),
{
    lemma_enabled_skips_off(list, contents, 0, list.len());
}

/// With exactly one entry switched on, of whatever kind (a group too), the
/// enabled text is that entry's own text.
pub proof fn lemma_enabled_one_on(list: Seq<HostsListObject>, contents: Seq<HostsContentObject>, k: int, t: Seq<char>)
    requires
        0 <= k < list.len(),
        list[k].on,
        forall|j: int| 0 <= j < list.len() && j != k ==> !(#[trigger] list[j]).on,
        content_of_hosts(list, contents, list[k].id@) == Some(t),
    ensures
        enabled_text(list, contents, list.len()) == Some(t),
{
    lemma_enabled_skips_off(list, contents, 0, k as nat);
    assert(enabled_text(list, contents, (k + 1) as nat) == Some(t)) by {
        if t.len() > 0 {
            assert(joined(Seq::<char>::empty(), t) == t);
        }
    }
    lemma_enabled_skips_off(list, contents, (k + 1) as nat, list.len());
}

/// With exactly two entries switched on, both with non-empty texts, the
/// enabled text is the first one's text, an empty line, and the second
/// one's text, in list order.
pub proof fn lemma_enabled_two_on(
    list: Seq<HostsListObject>,
    contents: Seq<HostsContentObject>,
    i: int,
    k: int,
    t1: Seq<char>,
    t2: Seq<char>,
)
    requires
        0 <= i < k < list.len(),
        list[i].on,
        list[k].on,
        forall|j: int| 0 <= j < list.len() && j != i && j != k ==> !(#[trigger] list[j]).on,
        content_of_hosts(list, contents, list[i].id@) == Some(t1),
        content_of_hosts(list, contents, list[k].id@) == Some(t2),
        t1.len() > 0,
        t2.len() > 0,
    ensures
        enabled_text(list, contents, list.len()) == Some(t1 + "\n\n"@ + t2),
{
    lemma_enabled_skips_off(list, contents, 0, i as nat);
    assert(enabled_text(list, contents, (i + 1) as nat) == Some(t1));
    lemma_enabled_skips_off(list, contents, (i + 1) as nat, k as nat);
    assert(enabled_text(list, contents, (k + 1) as nat) == Some(t1 + "\n\n"@ + t2));
    lemma_enabled_skips_off(list, contents, (k + 1) as nat, list.len());
}

// ---------------------------------------------------------------------
// Laws of switching and deleting
// ---------------------------------------------------------------------

/// With one entry at a time (`choice_mode == 1`), switching an entry on
/// leaves it on and every entry with another id off.
pub proof fn lemma_single_choice_leaves_one_on(list: Seq<HostsEntry>, first: int, id: Seq<char>)
    requires
        0 <= first < list.len(),
        list[first].id == id,
    ensures
        on_state_after(list, first, id, true, 1)[first].on,
        forall|j: int| 0 <= j < list.len() && #[trigger] on_state_after(list, first, id, true, 1)[j].on
            ==> list[j].id == id,
{
}

/// With several entries allowed at once, switching an entry changes no
/// other entry.
pub proof fn lemma_multi_choice_changes_one(list: Seq<HostsEntry>, first: int, id: Seq<char>, on: bool, choice_mode: i32)
    requires
        0 <= first < list.len(),
        choice_mode != 1,
    ensures
        forall|j: int| 0 <= j < list.len() && j != first ==> #[trigger] on_state_after(list, first, id, on, choice_mode)[j] == list[j],
{
}

/// Switching an entry off changes no other entry, whatever the mode.
pub proof fn lemma_switching_off_changes_one(list: Seq<HostsEntry>, first: int, id: Seq<char>, choice_mode: i32)
    requires
        0 <= first < list.len(),
    ensures
        forall|j: int| 0 <= j < list.len() && j != first ==> #[trigger] on_state_after(list, first, id, false, choice_mode)[j] == list[j],
{
}

/// With several entries allowed at once, switching an entry and then
/// switching it back gives the list again.
pub proof fn lemma_toggle_back_restores(list: Seq<HostsEntry>, first: int, id: Seq<char>, on: bool, choice_mode: i32)
    requires
        0 <= first < list.len(),
        choice_mode != 1,
    ensures
        on_state_after(on_state_after(list, first, id, on, choice_mode), first, id, list[first].on, choice_mode) == list,
{
    let once = on_state_after(list, first, id, on, choice_mode);
    let twice = on_state_after(once, first, id, list[first].on, choice_mode);
    assert(twice =~= list);
}

/// Deleting by id leaves no entry with that id, keeps every entry with
/// another id, and keeps their order.
pub proof fn lemma_delete_removes_only_id(list: Seq<HostsEntry>, id: Seq<char>)
    ensures
        forall|i: int| 0 <= i < without_id(list, id).len() ==> (#[trigger] without_id(list, id)[i]).id != id,
        forall|i: int| 0 <= i < list.len() && #[trigger] list[i].id != id ==> without_id(list, id).contains(list[i]),
        without_id(list, id).len() <= list.len(),
{
    let pred = |e: HostsEntry| e.id != id;
    assert forall|i: int| 0 <= i < list.filter(pred).len() implies (#[trigger] list.filter(pred)[i]).id != id by {
        list.lemma_filter_pred(pred, i);
    }
    assert forall|i: int| 0 <= i < list.len() && #[trigger] list[i].id != id implies list.filter(pred).contains(list[i]) by {
        list.lemma_filter_contains(pred, i);
    }
    list.lemma_filter_len(pred);
}

/// Deleting by id works entry by entry and keeps the order: nothing comes
/// of an empty list; one entry stays exactly when its id differs; and the
/// result for two lists one after the other is the result for the first
/// followed by the result for the second. So the kept entries come in
/// the order they had in the list.
pub proof fn lemma_delete_keeps_order(a: Seq<HostsEntry>, b: Seq<HostsEntry>, e: HostsEntry, id: Seq<char>)
    ensures
        without_id(Seq::<HostsEntry>::empty(), id) == Seq::<HostsEntry>::empty(),
        without_id(seq![e], id) == if e.id != id { seq![e] } else { Seq::<HostsEntry>::empty() },
        without_id(a + b, id) == without_id(a, id) + without_id(b, id),
        without_id(a.push(e), id) == if e.id != id { without_id(a, id).push(e) } else { without_id(a, id) },
{
    let pred = |x: HostsEntry| x.id != id;
    reveal_with_fuel(Seq::filter, 2);
    assert(Seq::<HostsEntry>::empty().filter(pred) =~= Seq::<HostsEntry>::empty());
    assert(seq![e].drop_last() =~= Seq::<HostsEntry>::empty());
    Seq::filter_distributes_over_add(a, b, pred);
    assert(a.push(e).drop_last() =~= a);
}

// ---------------------------------------------------------------------
// Laws of group resolution
// ---------------------------------------------------------------------

/// The ids an entry includes.
pub open spec fn included_ids(e: HostsListObject) -> Seq<String> {
    match e.included {
        Some(v) => v@,
        None => Seq::empty(),
    }
}

/// Groups nest without a cycle, as witnessed by a rank on ids: every
/// group (the first entry with its id) ranks below the list's length, and
/// every entry of the list that it includes ranks below it.
pub open spec fn ranked_groups(list: Seq<HostsListObject>, rank: spec_fn(Seq<char>) -> nat) -> bool {
    forall|i: int| #![trigger list[i]]
        0 <= i < list.len() && is_first_match(list, list[i].id@, i) && list[i].type_ == HostsType::Group ==> {
            &&& rank(list[i].id@) < list.len()
            &&& forall|m: int| 0 <= m < included_ids(list[i]).len() && has_id(list, included_ids(list[i])[m]@)
                ==> rank(#[trigger] included_ids(list[i])[m]@) < rank(list[i].id@)
        }
}

proof fn lemma_resolved_text_some(
    list: Seq<HostsListObject>,
    contents: Seq<HostsContentObject>,
    rank: spec_fn(Seq<char>) -> nat,
    id: Seq<char>,
    fuel: nat,
)
    requires
        ranked_groups(list, rank),
        first_match(list, id) matches Some(i) && list[i].type_ == HostsType::Group ==> rank(id) < fuel,
    ensures
        resolved_text(list, contents, id, fuel) is Some,
    decreases fuel, 0int, 0int,
{
    lemma_first_match_sound(list, id);
    if let Some(i) = first_match(list, id) {
        if list[i].type_ == HostsType::Group {
            let incs = included_ids(list[i]);
            assert(list[i].id@ == id);
            assert forall|m: int| 0 <= m < incs.len() && has_id(list, incs[m]@)
                implies rank(#[trigger] incs[m]@) < (fuel - 1) as nat by {
                assert(rank(included_ids(list[i])[m]@) < rank(list[i].id@));
            }
            lemma_group_text_some(list, contents, rank, incs, incs.len(), (fuel - 1) as nat);
        }
    }
}

proof fn lemma_group_text_some(
    list: Seq<HostsListObject>,
    contents: Seq<HostsContentObject>,
    rank: spec_fn(Seq<char>) -> nat,
    incs: Seq<String>,
    k: nat,
    fuel: nat,
)
    requires
        ranked_groups(list, rank),
        k <= incs.len(),
        forall|m: int| 0 <= m < incs.len() && has_id(list, incs[m]@) ==> rank(#[trigger] incs[m]@) < fuel,
    ensures
        group_text(list, contents, incs, k, fuel) is Some,
    decreases fuel, 1int, k,
{
    if k > 0 {
        lemma_group_text_some(list, contents, rank, incs, (k - 1) as nat, fuel);
        let inc = incs[k - 1]@;
        lemma_first_match_sound(list, inc);
        if let Some(j) = first_match(list, inc) {
            assert(list[j].id@ == inc);
            assert(has_id(list, inc));
            assert(rank(incs[k - 1]@) < fuel);
            lemma_resolved_text_some(list, contents, rank, inc, fuel);
        }
    }
}

/// When groups nest without a cycle, every id resolves to a text, and so
/// does the text of the switched-on entries: `get_content_of_hosts` and
/// `get_enabled_content` then never report `IncludeTooDeep`.
pub proof fn lemma_acyclic_groups_resolve(
    list: Seq<HostsListObject>,
    contents: Seq<HostsContentObject>,
    rank: spec_fn(Seq<char>) -> nat,
)
    requires
        ranked_groups(list, rank),
    ensures
        forall|id: Seq<char>| #[trigger] content_of_hosts(list, contents, id) is Some,
        enabled_text(list, contents, list.len()) is Some,
{
    assert forall|id: Seq<char>| #[trigger] content_of_hosts(list, contents, id) is Some by {
        lemma_first_match_sound(list, id);
        if let Some(i) = first_match(list, id) {
            assert(list[i].id@ == id);
        }
        lemma_resolved_text_some(list, contents, rank, id, list.len());
    }
    lemma_enabled_text_some(list, contents, list.len());
}

proof fn lemma_resolved_fuel_stable(
    list: Seq<HostsListObject>,
    contents: Seq<HostsContentObject>,
    rank: spec_fn(Seq<char>) -> nat,
    id: Seq<char>,
    f1: nat,
    f2: nat,
)
    requires
        ranked_groups(list, rank),
        f1 <= f2,
        first_match(list, id) matches Some(i) && list[i].type_ == HostsType::Group ==> rank(id) < f1,
    ensures
        resolved_text(list, contents, id, f1) == resolved_text(list, contents, id, f2),
    decreases f1, 0int, 0int,
{
    lemma_first_match_sound(list, id);
    if let Some(i) = first_match(list, id) {
        if list[i].type_ == HostsType::Group {
            let incs = included_ids(list[i]);
            assert(list[i].id@ == id);
            assert forall|m: int| 0 <= m < incs.len() && has_id(list, incs[m]@)
                implies rank(#[trigger] incs[m]@) < (f1 - 1) as nat by {
                assert(rank(included_ids(list[i])[m]@) < rank(list[i].id@));
            }
            lemma_group_fuel_stable(list, contents, rank, incs, incs.len(), (f1 - 1) as nat, (f2 - 1) as nat);
        }
    }
}

proof fn lemma_group_fuel_stable(
    list: Seq<HostsListObject>,
    contents: Seq<HostsContentObject>,
    rank: spec_fn(Seq<char>) -> nat,
    incs: Seq<String>,
    k: nat,
    f1: nat,
    f2: nat,
)
    requires
        ranked_groups(list, rank),
        f1 <= f2,
        k <= incs.len(),
        forall|m: int| 0 <= m < incs.len() && has_id(list, incs[m]@) ==> rank(#[trigger] incs[m]@) < f1,
    ensures
        group_text(list, contents, incs, k, f1) == group_text(list, contents, incs, k, f2),
    decreases f1, 1int, k,
{
    if k > 0 {
        lemma_group_fuel_stable(list, contents, rank, incs, (k - 1) as nat, f1, f2);
        let inc = incs[k - 1]@;
        lemma_first_match_sound(list, inc);
        if let Some(j) = first_match(list, inc) {
            assert(list[j].id@ == inc);
            assert(has_id(list, inc));
            assert(rank(incs[k - 1]@) < f1);
            lemma_resolved_fuel_stable(list, contents, rank, inc, f1, f2);
        }
    }
}

/// The text of a group from the first `k` ids it includes, told directly:
/// for each included id that names an entry of the
/// list, a `# file: <title>` line followed by that entry's own text (as
/// `get_content_of_hosts` gives it), the parts separated by an empty line;
/// ids that name no entry are skipped.
pub open spec fn included_texts(
    list: Seq<HostsListObject>,
    contents: Seq<HostsContentObject>,
    incs: Seq<String>,
    k: nat,
) -> Option<Seq<char>>
    decreases k,
{
    if k == 0 || k > incs.len() {
        Some(Seq::empty())
    } else {
        match included_texts(list, contents, incs, (k - 1) as nat) {
            None => None,
            Some(acc) => {
                let inc = incs[k - 1]@;
                match first_match(list, inc) {
                    None => Some(acc),
                    Some(j) => match content_of_hosts(list, contents, inc) {
                        None => None,
                        Some(t) => if 0 <= j < list.len() {
                            Some(joined(acc, "# file: "@ + list[j].title@ + "\n"@ + t))
                        } else {
                            None
                        },
                    },
                }
            },
        }
    }
}

proof fn lemma_group_text_is_included_texts(
    list: Seq<HostsListObject>,
    contents: Seq<HostsContentObject>,
    rank: spec_fn(Seq<char>) -> nat,
    incs: Seq<String>,
    k: nat,
)
    requires
        ranked_groups(list, rank),
        list.len() > 0,
        k <= incs.len(),
        forall|m: int| 0 <= m < incs.len() && has_id(list, incs[m]@) ==> rank(#[trigger] incs[m]@) < (list.len() - 1) as nat,
    ensures
        group_text(list, contents, incs, k, (list.len() - 1) as nat) == included_texts(list, contents, incs, k),
    decreases k,
{
    if k > 0 {
        lemma_group_text_is_included_texts(list, contents, rank, incs, (k - 1) as nat);
        let inc = incs[k - 1]@;
        lemma_first_match_sound(list, inc);
        if let Some(j) = first_match(list, inc) {
            assert(list[j].id@ == inc);
            assert(has_id(list, inc));
            assert(rank(incs[k - 1]@) < (list.len() - 1) as nat);
            lemma_resolved_fuel_stable(list, contents, rank, inc, (list.len() - 1) as nat, list.len());
        }
    }
}

/// When groups nest without a cycle, the text of a group is the text of
/// the entries it includes, each after a `# file: <title>` line, joined by
/// empty lines, ids that name no entry skipped: what `get_content_of_hosts`
/// gives for each of them.
pub proof fn lemma_group_text_joins_includes(
    list: Seq<HostsListObject>,
    contents: Seq<HostsContentObject>,
    rank: spec_fn(Seq<char>) -> nat,
    i: int,
)
    requires
        ranked_groups(list, rank),
        0 <= i < list.len(),
        is_first_match(list, list[i].id@, i),
        list[i].type_ == HostsType::Group,
    ensures
        content_of_hosts(list, contents, list[i].id@) is Some,
        content_of_hosts(list, contents, list[i].id@)
            == included_texts(list, contents, included_ids(list[i]), included_ids(list[i]).len()),
{
    let id = list[i].id@;
    lemma_first_match_is(list, id, i);
    lemma_acyclic_groups_resolve(list, contents, rank);
    assert(content_of_hosts(list, contents, id) is Some);
    let incs = included_ids(list[i]);
    assert(rank(id) < list.len());
    assert forall|m: int| 0 <= m < incs.len() && has_id(list, incs[m]@)
        implies rank(#[trigger] incs[m]@) < (list.len() - 1) as nat by {
        assert(rank(included_ids(list[i])[m]@) < rank(list[i].id@));
    }
    lemma_group_text_is_included_texts(list, contents, rank, incs, incs.len());
}

proof fn lemma_enabled_text_some(list: Seq<HostsListObject>, contents: Seq<HostsContentObject>, k: nat)
    requires
        forall|id: Seq<char>| #[trigger] content_of_hosts(list, contents, id) is Some,
    ensures
        enabled_text(list, contents, k) is Some,
    decreases k,
{
    if k > 0 && k <= list.len() {
        lemma_enabled_text_some(list, contents, (k - 1) as nat);
        assert(content_of_hosts(list, contents, list[k - 1].id@) is Some);
    }
}

proof fn lemma_self_including_group_text_none(
    list: Seq<HostsListObject>,
    contents: Seq<HostsContentObject>,
    i: int,
    m: int,
    fuel: nat,
)
    requires
        0 <= i < list.len(),
        is_first_match(list, list[i].id@, i),
        list[i].type_ == HostsType::Group,
        0 <= m < included_ids(list[i]).len(),
        included_ids(list[i])[m]@ == list[i].id@,
    ensures
        resolved_text(list, contents, list[i].id@, fuel) is None,
    decreases fuel,
{
    let id = list[i].id@;
    lemma_first_match_is(list, id, i);
    if fuel > 0 {
        let incs = included_ids(list[i]);
        let f = (fuel - 1) as nat;
        lemma_self_including_group_text_none(list, contents, i, m, f);
        assert(group_text(list, contents, incs, (m + 1) as nat, f) is None) by {
            assert(incs[m]@ == id);
        }
        if m + 1 < incs.len() {
            lemma_group_text_stays_none(list, contents, incs, (m + 1) as nat, incs.len(), f);
        }
    }
}

/// A group that includes its own id has no text: `get_content_of_hosts`
/// reports `IncludeTooDeep` for it.
pub proof fn lemma_self_including_group_unresolved(
    list: Seq<HostsListObject>,
    contents: Seq<HostsContentObject>,
    i: int,
)
    requires
        0 <= i < list.len(),
        is_first_match(list, list[i].id@, i),
        list[i].type_ == HostsType::Group,
        exists|m: int| 0 <= m < included_ids(list[i]).len() && #[trigger] included_ids(list[i])[m]@ == list[i].id@,
    ensures
        content_of_hosts(list, contents, list[i].id@) is None,
{
    let m = choose|m: int| 0 <= m < included_ids(list[i]).len() && #[trigger] included_ids(list[i])[m]@ == list[i].id@;
    lemma_self_including_group_text_none(list, contents, i, m, list.len());
}

// ---------------------------------------------------------------------
// Duplicate records
// ---------------------------------------------------------------------

/// Blank characters between the fields of a hosts line.
pub open spec fn is_blank(c: char) -> bool {
    c == ' ' || c == '\t' || c == '\r' || c == '\u{c}'
}

/// The fields of `line[0..k]`: the finished ones and the one still open.
pub open spec fn fields_upto(line: Seq<char>, k: int) -> (Seq<Seq<char>>, Seq<char>)
    decreases k,
{
    if k <= 0 || k > line.len() {
        (Seq::empty(), Seq::empty())
    } else {
        let (done, cur) = fields_upto(line, k - 1);
        if is_blank(line[k - 1]) {
            if cur.len() > 0 { (done.push(cur), Seq::empty()) } else { (done, cur) }
        } else {
            (done, cur.push(line[k - 1]))
        }
    }
}

/// The fields of a line: its maximal runs of non-blank characters.
pub open spec fn fields(line: Seq<char>) -> Seq<Seq<char>> {
    let (done, cur) = fields_upto(line, line.len() as int);
    if cur.len() > 0 { done.push(cur) } else { done }
}

/// A line that maps an address to a host name: two fields or more, the
/// first not starting a comment.
pub open spec fn is_record(line: Seq<char>) -> bool {
    fields(line).len() >= 2 && fields(line)[0].len() > 0 && fields(line)[0][0] != '#'
}

/// The address and the first host name of a record.
pub open spec fn record_key(line: Seq<char>) -> (Seq<char>, Seq<char>) {
    (fields(line)[0], fields(line)[1])
}

/// A record before line `i` has the same address and host name.
pub open spec fn seen_before(lines: Seq<Seq<char>>, i: int) -> bool {
    exists|j: int| 0 <= j < i && #[trigger] is_record(lines[j]) && record_key(lines[j]) == record_key(lines[i])
}

/// Line `i` stays: it is not a record, or the first record with its
/// address and host name.
pub open spec fn keeps_line(lines: Seq<Seq<char>>, i: int) -> bool {
    !is_record(lines[i]) || !seen_before(lines, i)
}

/// The lines among the first `k` that stay.
pub open spec fn kept_lines(lines: Seq<Seq<char>>, k: nat) -> Seq<Seq<char>>
    decreases k,
{
    if k == 0 || k > lines.len() {
        Seq::empty()
    } else {
        let prev = kept_lines(lines, (k - 1) as nat);
        if keeps_line(lines, k - 1) { prev.push(lines[k - 1]) } else { prev }
    }
}

/// Lines joined by newlines.
pub open spec fn join_lines(lines: Seq<Seq<char>>) -> Seq<char>
    decreases lines.len(),
{
    if lines.len() == 0 {
        Seq::empty()
    } else if lines.len() == 1 {
        lines[0]
    } else {
        join_lines(lines.drop_last()) + seq!['\n'] + lines.last()
    }
}

/// The text without the records whose address and host name appeared in
/// an earlier record. Comments, blank lines and other lines stay, and so
/// does the ending newline.
pub open spec fn without_duplicate_records(text: Seq<char>) -> Seq<char> {
    let lines = split_on(text, '\n');
    join_lines(kept_lines(lines, lines.len()))
}

/// The fields of a line.
fn fields_of(line: &Vec<char>) -> (res: Vec<Vec<char>>)
    ensures
        char_vecs_view(res@) == fields(line@),
        forall|i: int| 0 <= i < res@.len() ==> (#[trigger] res@[i])@.len() > 0,
{
    let n = line.len();
    let mut done: Vec<Vec<char>> = Vec::new();
    let mut cur: Vec<char> = Vec::new();
    let mut k: usize = 0;
    while k < n
        invariant
            n == line@.len(),
            k <= n,
            char_vecs_view(done@) == fields_upto(line@, k as int).0,
            cur@ == fields_upto(line@, k as int).1,
            forall|i: int| 0 <= i < done@.len() ==> (#[trigger] done@[i])@.len() > 0,
        decreases n - k,
    {
        let c = line[k];
        if c == ' ' || c == '\t' || c == '\r' || c == '\u{c}' {
            if cur.len() > 0 {
                let ghost before = done@;
                let piece = cur;
                done.push(piece);
                assert(char_vecs_view(done@) =~= char_vecs_view(before).push(piece@));
                cur = Vec::new();
            }
        } else {
            cur.push(c);
        }
        k = k + 1;
    }
    if cur.len() > 0 {
        let ghost before = done@;
        let piece = cur;
        done.push(piece);
        assert(char_vecs_view(done@) =~= char_vecs_view(before).push(piece@));
    }
    done
}

/// The keys of the records among the first `k` lines, in order.
pub open spec fn record_keys(lines: Seq<Seq<char>>, k: nat) -> Seq<(Seq<char>, Seq<char>)>
    decreases k,
{
    if k == 0 || k > lines.len() {
        Seq::empty()
    } else {
        let prev = record_keys(lines, (k - 1) as nat);
        if is_record(lines[k - 1]) { prev.push(record_key(lines[k - 1])) } else { prev }
    }
}

proof fn lemma_record_keys(lines: Seq<Seq<char>>, k: nat, key: (Seq<char>, Seq<char>))
    requires
        k <= lines.len(),
    ensures
        record_keys(lines, k).contains(key) <==> exists|j: int| 0 <= j < k && #[trigger] is_record(lines[j]) && record_key(lines[j]) == key,
    decreases k,
{
    if k > 0 {
        lemma_record_keys(lines, (k - 1) as nat, key);
        let prev = record_keys(lines, (k - 1) as nat);
        if is_record(lines[k - 1]) {
            let now = prev.push(record_key(lines[k - 1]));
            if now.contains(key) && !prev.contains(key) {
                let t = choose|t: int| 0 <= t < now.len() && now[t] == key;
                assert(t == prev.len());
            }
            if prev.contains(key) {
                let t = choose|t: int| 0 <= t < prev.len() && prev[t] == key;
                assert(now[t] == key);
            }
            if record_key(lines[k - 1]) == key {
                assert(now[prev.len() as int] == key);
            }
        }
        if exists|j: int| 0 <= j < k && #[trigger] is_record(lines[j]) && record_key(lines[j]) == key {
            let j = choose|j: int| 0 <= j < k && #[trigger] is_record(lines[j]) && record_key(lines[j]) == key;
            if j < k - 1 {
            } else {
                assert(j == k - 1);
            }
        }
    }
}

/// Whether a key is among the keys seen so far.
fn key_seen(seen: &Vec<(Vec<char>, Vec<char>)>, a: &Vec<char>, b: &Vec<char>) -> (res: bool)
    ensures
        res == seen@.map_values(|k: (Vec<char>, Vec<char>)| (k.0@, k.1@)).contains((a@, b@)),
{
    let ghost view = seen@.map_values(|k: (Vec<char>, Vec<char>)| (k.0@, k.1@));
    let n = seen.len();
    let mut i: usize = 0;
    while i < n
        invariant
            n == seen@.len(),
            i <= n,
            view == seen@.map_values(|k: (Vec<char>, Vec<char>)| (k.0@, k.1@)),
            forall|j: int| 0 <= j < i ==> #[trigger] view[j] != (a@, b@),
        decreases n - i,
    {
        if chars_equal(&seen[i].0, a) && chars_equal(&seen[i].1, b) {
            assert(view[i as int] == (a@, b@));
            return true;
        }
        i = i + 1;
    }
    false
}

/// The text without the records whose address and first host name appeared
/// in an earlier record; comments, blank lines and the ending newline stay.
pub fn remove_duplicate_lines(content: &str) -> (res: String)
    ensures
        res@ == without_duplicate_records(content@),
{
    let cs = chars_of(content);
    let lines = split_chars(&cs, '\n');
    let ghost ls = char_vecs_view(lines@);
    let n = lines.len();
    let mut seen: Vec<(Vec<char>, Vec<char>)> = Vec::new();
    let mut out = String::new();
    let mut any_kept = false;
    let mut k: usize = 0;
    while k < n
        invariant
            n == lines@.len(),
            ls == char_vecs_view(lines@),
            k <= n,
            seen@.map_values(|x: (Vec<char>, Vec<char>)| (x.0@, x.1@)) == record_keys(ls, k as nat),
            out@ == join_lines(kept_lines(ls, k as nat)),
            any_kept == (kept_lines(ls, k as nat).len() > 0),
        decreases n - k,
    {
        let line = &lines[k];
        assert(line@ == ls[k as int]);
        let fs = fields_of(line);
        let record = fs.len() >= 2 && fs[0].len() > 0 && fs[0][0] != '#';
        assert(record == is_record(ls[k as int])) by {
            if fs@.len() >= 2 {
                assert(fs@[0]@ == fields(ls[k as int])[0]);
            }
        }
        let mut keep = true;
        if record {
            assert(fs@[0]@ == fields(ls[k as int])[0]);
            assert(fs@[1]@ == fields(ls[k as int])[1]);
            proof { lemma_record_keys(ls, k as nat, record_key(ls[k as int])); }
            if key_seen(&seen, &fs[0], &fs[1]) {
                keep = false;
            }
            let ghost before = seen@;
            let key = (fs[0].clone(), fs[1].clone());
            seen.push(key);
            assert(seen@.map_values(|x: (Vec<char>, Vec<char>)| (x.0@, x.1@)) =~=
                before.map_values(|x: (Vec<char>, Vec<char>)| (x.0@, x.1@)).push(record_key(ls[k as int])));
        }
        assert(keep == keeps_line(ls, k as int));
        if keep {
            let ghost prev = kept_lines(ls, k as nat);
            if any_kept {
                push_char(&mut out, '\n');
            }
            let text = string_from_chars(line);
            push_str(&mut out, text.as_str());
            proof {
                let now = prev.push(ls[k as int]);
                assert(now.drop_last() =~= prev);
                if prev.len() == 0 {
                    assert(out@ =~= join_lines(now));
                }
            }
            any_kept = true;
        }
        k = k + 1;
    }
    out
}

/// No character of the text is this one.
pub open spec fn lacks_char(s: Seq<char>, c: char) -> bool {
    forall|i: int| 0 <= i < s.len() ==> #[trigger] s[i] != c
}

proof fn lemma_split_lacks(s: Seq<char>, sep: char, c: char, k: int)
    requires
        lacks_char(s, c),
        0 <= k <= s.len(),
    ensures
        lacks_char(split_upto(s, sep, k).1, c),
        forall|i: int| 0 <= i < split_upto(s, sep, k).0.len() ==> lacks_char(#[trigger] split_upto(s, sep, k).0[i], c),
    decreases k,
{
    if k > 0 {
        lemma_split_lacks(s, sep, c, k - 1);
        let (done, cur) = split_upto(s, sep, k - 1);
        if s[k - 1] != sep {
            let now = cur.push(s[k - 1]);
            assert forall|i: int| 0 <= i < now.len() implies #[trigger] now[i] != c by {
                if i < cur.len() {
                    assert(now[i] == cur[i]);
                }
            }
        } else {
            let now = done.push(cur);
            assert forall|i: int| 0 <= i < now.len() implies lacks_char(#[trigger] now[i], c) by {
                if i < done.len() {
                    assert(now[i] == done[i]);
                }
            }
        }
    }
}

proof fn lemma_kept_lines_lack(lines: Seq<Seq<char>>, c: char, k: nat)
    requires
        forall|i: int| 0 <= i < lines.len() ==> lacks_char(#[trigger] lines[i], c),
        k <= lines.len(),
    ensures
        forall|i: int| 0 <= i < kept_lines(lines, k).len() ==> lacks_char(#[trigger] kept_lines(lines, k)[i], c),
    decreases k,
{
    if k > 0 {
        lemma_kept_lines_lack(lines, c, (k - 1) as nat);
        let prev = kept_lines(lines, (k - 1) as nat);
        if keeps_line(lines, k - 1) {
            let now = prev.push(lines[k - 1]);
            assert forall|i: int| 0 <= i < now.len() implies lacks_char(#[trigger] now[i], c) by {
                if i < prev.len() {
                    assert(now[i] == prev[i]);
                }
            }
        }
    }
}

proof fn lemma_join_lacks(lines: Seq<Seq<char>>, c: char)
    requires
        c != '\n',
        forall|i: int| 0 <= i < lines.len() ==> lacks_char(#[trigger] lines[i], c),
    ensures
        lacks_char(join_lines(lines), c),
    decreases lines.len(),
{
    if lines.len() > 1 {
        let init = lines.drop_last();
        assert forall|i: int| 0 <= i < init.len() implies lacks_char(#[trigger] init[i], c) by {
            assert(init[i] == lines[i]);
        }
        lemma_join_lacks(init, c);
        let j = join_lines(init) + seq!['\n'] + lines.last();
        assert(lacks_char(lines.last(), c)) by {
            assert(lines[lines.len() - 1] == lines.last());
        }
        assert forall|i: int| 0 <= i < j.len() implies #[trigger] j[i] != c by {
            let a = join_lines(init).len() as int;
            if i < a {
                assert(j[i] == join_lines(init)[i]);
            } else if i > a {
                assert(j[i] == lines.last()[i - a - 1]);
            }
        }
    } else if lines.len() == 1 {
        assert(lacks_char(lines[0], c));
    }
}

/// Removing duplicate records adds no character: a character missing from
/// the text (other than the newline) is missing from the result.
pub proof fn lemma_dedup_adds_no_char(text: Seq<char>, c: char)
    requires
        c != '\n',
        lacks_char(text, c),
    ensures
        lacks_char(without_duplicate_records(text), c),
{
    let lines = split_on(text, '\n');
    lemma_split_lacks(text, '\n', c, text.len() as int);
    let (done, cur) = split_upto(text, '\n', text.len() as int);
    assert forall|i: int| 0 <= i < lines.len() implies lacks_char(#[trigger] lines[i], c) by {
        if i < done.len() {
            assert(lines[i] == done[i]);
        }
    }
    lemma_kept_lines_lack(lines, c, lines.len());
    lemma_join_lacks(kept_lines(lines, lines.len()), c);
}

/// Splitting joined lines gives the lines back, when none holds a newline.
proof fn lemma_split_join(lines: Seq<Seq<char>>)
    requires
        lines.len() > 0,
        forall|p: int, i: int| 0 <= p < lines.len() && 0 <= i < lines[p].len() ==> #[trigger] lines[p][i] != '\n',
    ensures
        split_on(join_lines(lines), '\n') == lines,
    decreases lines.len(),
{
    let last = lines.last();
    assert forall|i: int| 0 <= i < last.len() implies last[i] != '\n' by {
        assert(lines[lines.len() - 1][i] != '\n');
    }
    if lines.len() == 1 {
        lemma_split_upto_append(Seq::<char>::empty(), last, '\n', last.len() as int);
        assert(Seq::<char>::empty() + last =~= last);
        assert(last.take(last.len() as int) =~= last);
        assert(Seq::<char>::empty() + last.take(last.len() as int) =~= last);
        assert(split_on(join_lines(lines), '\n') =~= lines);
    } else {
        let init = lines.drop_last();
        assert forall|p: int, i: int| 0 <= p < init.len() && 0 <= i < init[p].len() implies #[trigger] init[p][i] != '\n' by {
            assert(init[p] == lines[p]);
        }
        lemma_split_join(init);
        let ji = join_lines(init);
        let a = ji + seq!['\n'];
        assert forall|i: int| 0 <= i < ji.len() implies a[i] == ji[i] by {}
        lemma_split_upto_prefix(a, ji, '\n', ji.len() as int);
        assert(a[a.len() - 1] == '\n');
        assert(split_upto(a, '\n', a.len() as int) == (init, Seq::<char>::empty()));
        lemma_split_upto_append(a, last, '\n', last.len() as int);
        assert(join_lines(lines) =~= a + last);
        assert(last.take(last.len() as int) =~= last);
        assert(Seq::<char>::empty() + last =~= last);
        assert(init.push(last) =~= lines);
    }
}

/// No two records of the lines have the same address and host name.
pub open spec fn unique_records(lines: Seq<Seq<char>>) -> bool {
    forall|i: int, j: int| 0 <= i < j < lines.len() && is_record(lines[i]) && is_record(lines[j])
        ==> #[trigger] record_key(lines[i]) != #[trigger] record_key(lines[j])
}

/// Every kept line is one of the lines before `k`.
proof fn lemma_kept_lines_come_from(lines: Seq<Seq<char>>, k: nat)
    requires
        k <= lines.len(),
    ensures
        forall|i: int| 0 <= i < kept_lines(lines, k).len() ==>
            exists|j: int| 0 <= j < k && lines[j] == #[trigger] kept_lines(lines, k)[i],
    decreases k,
{
    if k > 0 {
        lemma_kept_lines_come_from(lines, (k - 1) as nat);
        let prev = kept_lines(lines, (k - 1) as nat);
        if keeps_line(lines, k - 1) {
            let now = prev.push(lines[k - 1]);
            assert forall|i: int| 0 <= i < now.len() implies exists|j: int| 0 <= j < k && lines[j] == #[trigger] now[i] by {
                if i < prev.len() {
                    assert(now[i] == prev[i]);
                    let j = choose|j: int| 0 <= j < k - 1 && lines[j] == #[trigger] prev[i];
                    assert(lines[j] == now[i]);
                } else {
                    assert(lines[k - 1] == now[i]);
                }
            }
        }
    }
}

/// The kept lines have unique records.
proof fn lemma_kept_lines_unique(lines: Seq<Seq<char>>, k: nat)
    requires
        k <= lines.len(),
    ensures
        unique_records(kept_lines(lines, k)),
    decreases k,
{
    if k > 0 {
        lemma_kept_lines_unique(lines, (k - 1) as nat);
        lemma_kept_lines_come_from(lines, (k - 1) as nat);
        let prev = kept_lines(lines, (k - 1) as nat);
        if keeps_line(lines, k - 1) {
            let now = prev.push(lines[k - 1]);
            assert forall|i: int, j: int| 0 <= i < j < now.len() && is_record(now[i]) && is_record(now[j])
                implies #[trigger] record_key(now[i]) != #[trigger] record_key(now[j]) by {
                if j < prev.len() {
                    assert(now[i] == prev[i] && now[j] == prev[j]);
                } else {
                    assert(now[j] == lines[k - 1]);
                    assert(now[i] == prev[i]);
                    let t = choose|t: int| 0 <= t < k - 1 && lines[t] == #[trigger] prev[i];
                    if record_key(now[i]) == record_key(now[j]) {
                        assert(is_record(lines[t]) && record_key(lines[t]) == record_key(lines[k - 1]));
                        assert(seen_before(lines, k - 1));
                    }
                }
            }
        }
    }
}

/// Lines with unique records are all kept.
proof fn lemma_unique_lines_all_kept(lines: Seq<Seq<char>>, k: nat)
    requires
        k <= lines.len(),
        unique_records(lines),
    ensures
        kept_lines(lines, k) == lines.take(k as int),
    decreases k,
{
    if k == 0 {
        assert(lines.take(0) =~= Seq::<Seq<char>>::empty());
    } else {
        lemma_unique_lines_all_kept(lines, (k - 1) as nat);
        if is_record(lines[k - 1]) && seen_before(lines, k - 1) {
            let j = choose|j: int| 0 <= j < k - 1 && #[trigger] is_record(lines[j])
                && record_key(lines[j]) == record_key(lines[k - 1]);
            assert(record_key(lines[j]) != record_key(lines[k - 1]));
        }
        assert(lines.take(k as int) =~= lines.take(k - 1).push(lines[k - 1]));
    }
}

/// The first line is always kept.
proof fn lemma_kept_lines_nonempty(lines: Seq<Seq<char>>, k: nat)
    requires
        0 < k <= lines.len(),
    ensures
        kept_lines(lines, k).len() > 0,
    decreases k,
{
    if k > 1 {
        lemma_kept_lines_nonempty(lines, (k - 1) as nat);
    } else {
        assert(!seen_before(lines, 0));
    }
}

/// Removing duplicate records a second time changes nothing.
pub proof fn lemma_dedup_idempotent(text: Seq<char>)
    ensures
        without_duplicate_records(without_duplicate_records(text)) == without_duplicate_records(text),
{
    let lines = split_on(text, '\n');
    let n = lines.len();
    let kept = kept_lines(lines, n);
    lemma_split_pieces_lack_sep(text, '\n', text.len() as int);
    let (done, cur) = split_upto(text, '\n', text.len() as int);
    assert forall|p: int, i: int| 0 <= p < lines.len() && 0 <= i < lines[p].len() implies #[trigger] lines[p][i] != '\n' by {
        if p < done.len() {
            assert(lines[p] == done[p]);
            assert(done[p][i] != '\n');
        } else {
            assert(lines[p] == cur);
            assert(cur[i] != '\n');
        }
    }
    lemma_kept_lines_come_from(lines, n);
    assert forall|p: int, i: int| 0 <= p < kept.len() && 0 <= i < kept[p].len() implies #[trigger] kept[p][i] != '\n' by {
        let j = choose|j: int| 0 <= j < n && lines[j] == #[trigger] kept[p];
        assert(lines[j][i] != '\n');
    }
    lemma_kept_lines_nonempty(lines, n);
    lemma_split_join(kept);
    lemma_kept_lines_unique(lines, n);
    lemma_unique_lines_all_kept(kept, kept.len());
    assert(kept.take(kept.len() as int) =~= kept);
}

} // verus!
