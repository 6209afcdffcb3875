//! The trash can: moving entries in and out, and the stored texts that go
//! with them when they are deleted for good.

use vstd::prelude::*;
use crate::error::HostzError;
use crate::hosts_core::content_parser::{
    delete_item_by_id, first_match, without_id, is_first_match, lemma_delete_removes_only_id, lemma_first_match_sound, position_of_id,
};
use crate::models::hosts::{HostsEntry, HostsListObject, TrashcanItem, entries, strings_view};
use crate::text::{str_eq, to_owned_string};

verus! {

/// The ids whose stored texts belong to an entry: its own id, then the
/// ids it includes.
pub open spec fn all_ids(e: HostsEntry) -> Seq<Seq<char>> {
    match e.included {
        Some(incs) => seq![e.id] + incs,
        None => seq![e.id],
    }
}

/// The ids of an entry and of the entries it includes.
pub fn collect_all_ids(item: &HostsListObject) -> (res: Vec<String>)
    ensures
        strings_view(res@) == all_ids(item@),
{
    let mut ids: Vec<String> = Vec::new();
    ids.push(item.id.clone());
    match &item.included {
        Some(incs) => {
            let n = incs.len();
            let mut k: usize = 0;
            while k < n
                invariant
                    n == incs@.len(),
                    k <= n,
                    strings_view(ids@) == seq![item.id@] + strings_view(incs@).take(k as int),
                decreases n - k,
            {
                let ghost before = ids@;
                ids.push(incs[k].clone());
                assert(strings_view(ids@) =~= strings_view(before).push(incs@[k as int]@));
                assert(strings_view(incs@).take(k + 1) =~= strings_view(incs@).take(k as int).push(incs@[k as int]@));
                k = k + 1;
            }
            assert(strings_view(incs@).take(n as int) =~= strings_view(incs@));
        },
        None => {},
    }
    proof {
        assert(strings_view(ids@) =~= all_ids(item@));
    }
    ids
}

/// `i` is the first item of the trash can whose entry has this id.
pub open spec fn is_first_trash_match(trash: Seq<TrashcanItem>, id: Seq<char>, i: int) -> bool {
    &&& 0 <= i < trash.len()
    &&& trash[i].data.id@ == id
    &&& forall|j: int| 0 <= j < i ==> #[trigger] trash[j].data.id@ != id
}

/// The first item of the trash can whose entry has this id.
pub open spec fn first_trash_match(trash: Seq<TrashcanItem>, id: Seq<char>) -> Option<int> {
    if exists|i: int| 0 <= i < trash.len() && #[trigger] trash[i].data.id@ == id {
        Some(choose|i: int| is_first_trash_match(trash, id, i))
    } else {
        None
    }
}

proof fn lemma_first_trash_exists(trash: Seq<TrashcanItem>, id: Seq<char>, k: int)
    requires
        0 <= k < trash.len(),
        trash[k].data.id@ == id,
    ensures
        exists|i: int| is_first_trash_match(trash, id, i),
    decreases k,
{
    if exists|j: int| 0 <= j < k && #[trigger] trash[j].data.id@ == id {
        let j = choose|j: int| 0 <= j < k && #[trigger] trash[j].data.id@ == id;
        lemma_first_trash_exists(trash, id, j);
    } else {
        assert(is_first_trash_match(trash, id, k));
    }
}

proof fn lemma_first_trash_is(trash: Seq<TrashcanItem>, id: Seq<char>, i: int)
    requires
        is_first_trash_match(trash, id, i),
    ensures
        first_trash_match(trash, id) == Some(i),
{
    assert(trash[i].data.id@ == id);
    let k = choose|k: int| is_first_trash_match(trash, id, k);
    lemma_first_trash_exists(trash, id, i);
    assert(is_first_trash_match(trash, id, k));
    if k < i {
        assert(trash[k].data.id@ != id);
    }
    if i < k {
        assert(trash[i].data.id@ != id);
    }
}

/// The position of the first trash can item whose entry has this id.
pub fn trash_position_of_id(trash: &[TrashcanItem], id: &str) -> (res: Option<usize>)
    ensures
        res matches Some(i) ==> is_first_trash_match(trash@, id@, i as int),
        match first_trash_match(trash@, id@) {
            Some(i) => res == Some(i as usize),
            None => res is None,
        },
{
    let n = trash.len();
    let mut i: usize = 0;
    while i < n
        invariant
            n == trash@.len(),
            i <= n,
            forall|j: int| 0 <= j < i ==> #[trigger] trash@[j].data.id@ != id@,
        decreases n - i,
    {
        if str_eq(trash[i].data.id.as_str(), id) {
            proof { lemma_first_trash_is(trash@, id@, i as int); }
            return Some(i);
        }
        i = i + 1;
    }
    None
}

/// Moves the first entry with the id to the trash can at `now_ms`: the
/// new list, without any entry with that id, and the trash can item, which
/// holds that entry switched off.
pub fn move_to_trashcan(list: &[HostsListObject], id: &str, now_ms: i64)
    -> (res: Result<(Vec<HostsListObject>, TrashcanItem), HostzError>)
    ensures
        match first_match(list@, id@) {
            Some(i) => res matches Ok((l, t))
                && entries(l@) == without_id(entries(list@), id@)
                && t.data@ == (HostsEntry { on: false, ..list@[i]@ })
                && t.parent_id is None
                && t.add_time_ms == now_ms,
            None => res matches Err(HostzError::ItemNotFound { id: e }) && e@ == id@,
        },
{
    proof { lemma_first_match_sound(list@, id@); }
    match position_of_id(list, id) {
        None => Err(HostzError::ItemNotFound { id: to_owned_string(id) }),
        Some(i) => {
            let mut data = list[i].clone();
            data.on = false;
            let item = TrashcanItem { data, parent_id: None, add_time_ms: now_ms };
            let new_list = delete_item_by_id(list, id);
            Ok((new_list, item))
        },
    }
}

/// Restores the first trash can item with the id: the list with its entry
/// appended at the end. The caller then removes the item from the trash.
pub fn restore_from_trashcan(trash: &[TrashcanItem], list: Vec<HostsListObject>, id: &str)
    -> (res: Result<Vec<HostsListObject>, HostzError>)
    ensures
        match first_trash_match(trash@, id@) {
            Some(i) => res matches Ok(l) && entries(l@) == entries(list@).push(trash@[i].data@),
            None => res matches Err(HostzError::TrashItemNotFound { id: e }) && e@ == id@,
        },
{
    match trash_position_of_id(trash, id) {
        None => Err(HostzError::TrashItemNotFound { id: to_owned_string(id) }),
        Some(i) => {
            let mut list = list;
            let ghost before = list@;
            let data = trash[i].data.clone();
            list.push(data);
            assert(entries(list@) =~= entries(before).push(trash@[i as int].data@));
            Ok(list)
        },
    }
}

/// The ids whose stored texts go when the first trash can item with the
/// id is deleted for good: its entry's id and the ids it includes.
pub fn permanently_delete(trash: &[TrashcanItem], id: &str) -> (res: Result<Vec<String>, HostzError>)
    ensures
        match first_trash_match(trash@, id@) {
            Some(i) => res matches Ok(ids) && strings_view(ids@) == all_ids(trash@[i].data@),
            None => res matches Err(HostzError::TrashItemNotFound { id: e }) && e@ == id@,
        },
{
    match trash_position_of_id(trash, id) {
        None => Err(HostzError::TrashItemNotFound { id: to_owned_string(id) }),
        Some(i) => Ok(collect_all_ids(&trash[i].data)),
    }
}

/// The ids of all trash can items, each followed by the ids it includes.
pub open spec fn trash_ids(trash: Seq<TrashcanItem>, k: nat) -> Seq<Seq<char>>
    decreases k,
{
    if k == 0 || k > trash.len() {
        Seq::empty()
    } else {
        trash_ids(trash, (k - 1) as nat) + all_ids(trash[k - 1].data@)
    }
}

/// The ids whose stored texts go when the trash can is emptied.
pub fn clear_trashcan(trash: &[TrashcanItem]) -> (res: Vec<String>)
    ensures
        strings_view(res@) == trash_ids(trash@, trash@.len()),
{
    let mut all: Vec<String> = Vec::new();
    let n = trash.len();
    let mut k: usize = 0;
    while k < n
        invariant
            n == trash@.len(),
            k <= n,
            strings_view(all@) == trash_ids(trash@, k as nat),
        decreases n - k,
    {
        let mut ids = collect_all_ids(&trash[k].data);
        let ghost before = all@;
        let ghost more = ids@;
        all.append(&mut ids);
        assert(strings_view(all@) =~= strings_view(before) + strings_view(more));
        k = k + 1;
    }
    all
}

/// The trash can without the items whose entry has this id (what removing
/// an item from the trash can by id leaves).
pub open spec fn trash_without_id(trash: Seq<TrashcanItem>, id: Seq<char>) -> Seq<TrashcanItem> {
    trash.filter(other_id(id))
}

/// The item holds an entry with another id.
pub open spec fn other_id(id: Seq<char>) -> spec_fn(TrashcanItem) -> bool {
    |t: TrashcanItem| t.data.id@ != id
}

/// Moving an entry to the trash can and restoring it is a round trip.
/// Take a list whose first entry with the id is at `i`, and a trash can
/// with no item of that id. Moving gives the list without the id and an
/// item `t` holding the entry switched off, which joins the trash can.
/// Restoring then finds `t`, appends its entry (switched off) to the list,
/// and removing it from the trash can by id gives the trash can back.
/// Restoring from the trash can before the move finds nothing, so it
/// reports `TrashItemNotFound` and changes nothing.
pub proof fn lemma_trash_round_trip(
    list: Seq<HostsListObject>,
    trash: Seq<TrashcanItem>,
    id: Seq<char>,
    i: int,
    t: TrashcanItem,
)
    requires
        is_first_match(list, id, i),
        forall|k: int| 0 <= k < trash.len() ==> #[trigger] trash[k].data.id@ != id,
        t.data@ == (HostsEntry { on: false, ..list[i]@ }),
    ensures
        ({
            let trash2 = trash.push(t);
            let moved = without_id(entries(list), id);
            let restored = moved.push(trash2[trash.len() as int].data@);
            &&& first_trash_match(trash, id) is None
            &&& first_trash_match(trash2, id) == Some(trash.len() as int)
            &&& restored == moved.push(HostsEntry { on: false, ..list[i]@ })
            &&& restored.last().id == id && !restored.last().on
            &&& forall|j: int| 0 <= j < restored.len() - 1 ==> (#[trigger] restored[j]).id != id
            &&& trash_without_id(trash2, id) == trash
        }),
{
    let trash2 = trash.push(t);
    let n = trash.len() as int;
    assert(is_first_trash_match(trash2, id, n)) by {
        assert forall|j: int| 0 <= j < n implies #[trigger] trash2[j].data.id@ != id by {
            assert(trash2[j] == trash[j]);
        }
    }
    lemma_first_trash_is(trash2, id, n);
    let moved = without_id(entries(list), id);
    lemma_delete_removes_only_id(entries(list), id);
    let restored = moved.push(trash2[n].data@);
    assert forall|j: int| 0 <= j < restored.len() - 1 implies (#[trigger] restored[j]).id != id by {
        assert(restored[j] == moved[j]);
    }
    let pred = other_id(id);
    assert(trash.filter(pred) =~= trash) by {
        trash.lemma_filter_len(pred);
        assert forall|k: int| 0 <= k < trash.len() implies trash.filter(pred).contains(#[trigger] trash[k]) by {
            trash.lemma_filter_contains(pred, k);
        }
        lemma_filter_all(trash, pred);
    }
    reveal_with_fuel(Seq::filter, 1);
    assert(trash2.drop_last() =~= trash);
    assert(!pred(trash2.last()));
    assert(trash2.filter(pred) == trash.filter(pred));
}

/// Filtering by a predicate that every element meets keeps the sequence.
proof fn lemma_filter_all(s: Seq<TrashcanItem>, pred: spec_fn(TrashcanItem) -> bool)
    requires
        forall|k: int| 0 <= k < s.len() ==> pred(#[trigger] s[k]),
    ensures
        s.filter(pred) == s,
    decreases s.len(),
{
    reveal_with_fuel(Seq::filter, 1);
    if s.len() > 0 {
        let init = s.drop_last();
        assert forall|k: int| 0 <= k < init.len() implies pred(#[trigger] init[k]) by {
            assert(init[k] == s[k]);
        }
        lemma_filter_all(init, pred);
        assert(pred(s[s.len() - 1]));
        assert(s =~= init.push(s.last()));
    }
}

} // verus!
