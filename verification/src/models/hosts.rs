//! Hosts entries, trash can items, stored contents, write history and
//! find results.

use vstd::prelude::*;

verus! {

/// The kind of a hosts entry.
#[derive(Debug, Clone, Copy, PartialEq, Eq, Structural)]
pub enum HostsType {
    /// Edited by the user.
    Local,
    /// Fetched over HTTP.
    Remote,
    /// The concatenation of the entries it includes.
    Group,
}

impl Default for HostsType {
    fn default() -> (res: Self)
        ensures
            res == HostsType::Local,
    {
        HostsType::Local
    }
}

/// One entry of the hosts list.
#[derive(Debug)]
pub struct HostsListObject {
    pub id: String,
    pub title: String,
    pub type_: HostsType,
    pub on: bool,
    pub content: Option<String>,
    pub url: Option<String>,
    pub refresh_interval: Option<i64>,
    pub last_refresh_ms: Option<i64>,
    pub included: Option<Vec<String>>,
    pub order: i32,
}

/// A copy of an optional string.
pub fn clone_opt_string(s: &Option<String>) -> (res: Option<String>)
    ensures
        res == *s,
{
    match s {
        Some(t) => Some(t.clone()),
        None => None,
    }
}

/// A copy of a list of strings.
pub fn clone_strings(v: &Vec<String>) -> (res: Vec<String>)
    ensures
        res@ == v@,
{
    let mut res: Vec<String> = Vec::new();
    let n = v.len();
    let mut i: usize = 0;
    while i < n
        invariant
            n == v@.len(),
            i <= n,
            res@ == v@.take(i as int),
        decreases n - i,
    {
        res.push(v[i].clone());
        assert(v@.take(i as int).push(v@[i as int]) == v@.take(i + 1));
        i = i + 1;
    }
    assert(v@.take(n as int) == v@);
    res
}

/// A copy of an optional list of strings.
pub fn clone_opt_strings(v: &Option<Vec<String>>) -> (res: Option<Vec<String>>)
    ensures
        opt_strings(res) == opt_strings(*v),
{
    match v {
        Some(w) => Some(clone_strings(w)),
        None => None,
    }
}

/// What a hosts entry holds, as mathematical values.
#[verifier::ext_equal]
pub struct HostsEntry {
    pub id: Seq<char>,
    pub title: Seq<char>,
    pub type_: HostsType,
    pub on: bool,
    pub content: Option<Seq<char>>,
    pub url: Option<Seq<char>>,
    pub refresh_interval: Option<i64>,
    pub last_refresh_ms: Option<i64>,
    pub included: Option<Seq<Seq<char>>>,
    pub order: i32,
}

/// The characters of an optional string.
pub open spec fn opt_chars(s: Option<String>) -> Option<Seq<char>> {
    match s {
        Some(t) => Some(t@),
        None => None,
    }
}

/// The strings of an optional list, each as its characters.
pub open spec fn opt_strings(v: Option<Vec<String>>) -> Option<Seq<Seq<char>>> {
    match v {
        Some(w) => Some(strings_view(w@)),
        None => None,
    }
}

/// Each string of a sequence as its characters.
pub open spec fn strings_view(v: Seq<String>) -> Seq<Seq<char>> {
    v.map_values(|s: String| s@)
}

impl View for HostsListObject {
    type V = HostsEntry;

    open spec fn view(&self) -> HostsEntry {
        HostsEntry {
            id: self.id@,
            title: self.title@,
            type_: self.type_,
            on: self.on,
            content: opt_chars(self.content),
            url: opt_chars(self.url),
            refresh_interval: self.refresh_interval,
            last_refresh_ms: self.last_refresh_ms,
            included: opt_strings(self.included),
            order: self.order,
        }
    }
}

/// The entries of a list, as mathematical values.
pub open spec fn entries(list: Seq<HostsListObject>) -> Seq<HostsEntry> {
    list.map_values(|e: HostsListObject| e@)
}

impl Clone for HostsListObject {
    fn clone(&self) -> (res: Self)
        ensures
            res@ == self@,
    {
        let included = clone_opt_strings(&self.included);
        HostsListObject {
            id: self.id.clone(),
            title: self.title.clone(),
            type_: self.type_,
            on: self.on,
            content: clone_opt_string(&self.content),
            url: clone_opt_string(&self.url),
            refresh_interval: self.refresh_interval,
            last_refresh_ms: self.last_refresh_ms,
            included,
            order: self.order,
        }
    }
}

impl Default for HostsListObject {
    fn default() -> (res: Self)
        ensures
            res.id@ == Seq::<char>::empty(),
            res.title@ == Seq::<char>::empty(),
            res.type_ == HostsType::Local,
            !res.on,
            res.content is None,
            res.url is None,
            res.refresh_interval is None,
            res.last_refresh_ms is None,
            res.included is None,
            res.order == 0,
    {
        HostsListObject {
            id: String::new(),
            title: String::new(),
            type_: HostsType::Local,
            on: false,
            content: None,
            url: None,
            refresh_interval: None,
            last_refresh_ms: None,
            included: None,
            order: 0,
        }
    }
}

/// An entry moved to the trash can.
#[derive(Debug)]
pub struct TrashcanItem {
    pub data: HostsListObject,
    pub parent_id: Option<String>,
    pub add_time_ms: i64,
}

impl Clone for TrashcanItem {
    fn clone(&self) -> (res: Self)
        ensures
            res.data@ == self.data@,
            res.parent_id == self.parent_id,
            res.add_time_ms == self.add_time_ms,
    {
        TrashcanItem {
            data: self.data.clone(),
            parent_id: clone_opt_string(&self.parent_id),
            add_time_ms: self.add_time_ms,
        }
    }
}

/// The stored text of a local or remote entry.
#[derive(Debug)]
pub struct HostsContentObject {
    pub id: String,
    pub content: String,
}

/// One write of the system hosts file.
#[derive(Debug)]
pub struct HostsHistoryObject {
    pub id: String,
    pub content: String,
    pub add_time_ms: i64,
    pub label: Option<String>,
}

/// The data the user interface loads at start.
#[derive(Debug)]
pub struct HostsBasicData {
    pub list: Vec<HostsListObject>,
    pub trashcan: Vec<TrashcanItem>,
    pub version: [u16; 4],
}

/// One match of a find, in byte offsets of the entry's text.
#[derive(Debug)]
pub struct FindPosition {
    pub start: usize,
    pub end: usize,
    pub line: usize,
    pub line_pos: usize,
    pub end_line: usize,
    pub end_line_pos: usize,
    pub before: String,
    pub matched: String,
    pub after: String,
}

/// The matches of a find in one entry.
#[derive(Debug)]
pub struct FindItem {
    pub item_id: String,
    pub item_title: String,
    pub item_type: HostsType,
    pub positions: Vec<FindPosition>,
}

} // verus!
