//! The decisions behind the user interface's commands: new entries and the
//! events that follow a change of settings.

use vstd::prelude::*;
use crate::models::config::{AppConfig, Theme};
use crate::models::hosts::{HostsEntry, HostsListObject, HostsType, entries, opt_chars};
use crate::text::str_eq;

verus! {

/// The kind of entry a name from the user interface asks for: `remote`,
/// `group`, anything else a local entry.
pub fn item_type_from_name(name: &str) -> (res: HostsType)
    ensures
        res == if name@ == "remote"@ {
            HostsType::Remote
        } else if name@ == "group"@ {
            HostsType::Group
        } else {
            HostsType::Local
        },
{
    if str_eq(name, "remote") {
        HostsType::Remote
    } else if str_eq(name, "group") {
        HostsType::Group
    } else {
        HostsType::Local
    }
}

/// A new entry: switched off, of the kind the name asks for, with the
/// given id, title, address, refresh interval and order.
pub open spec fn new_entry(
    id: Seq<char>,
    title: Seq<char>,
    item_type: Seq<char>,
    url: Option<Seq<char>>,
    refresh_interval: Option<i64>,
    order: i32,
) -> HostsEntry {
    HostsEntry {
        id,
        title,
        type_: if item_type == "remote"@ {
            HostsType::Remote
        } else if item_type == "group"@ {
            HostsType::Group
        } else {
            HostsType::Local
        },
        on: false,
        content: None,
        url,
        refresh_interval,
        last_refresh_ms: None,
        included: None,
        order,
    }
}

/// The list with a new entry appended, ordered after the entries before
/// it (the count of entries, as a 32-bit number).
pub fn add_item(
    list: Vec<HostsListObject>,
    id: String,
    title: String,
    item_type: &str,
    url: Option<String>,
    refresh_interval: Option<i64>,
) -> (res: Vec<HostsListObject>)
    ensures
        entries(res@) == entries(list@).push(
            new_entry(id@, title@, item_type@, opt_chars(url), refresh_interval, list@.len() as i32)),
{
    let mut list = list;
    let ghost before = list@;
    let order = list.len() as i32;
    let item = HostsListObject {
        id,
        title,
        type_: item_type_from_name(item_type),
        on: false,
        content: None,
        url,
        refresh_interval,
        last_refresh_ms: None,
        included: None,
        order,
    };
    list.push(item);
    assert(entries(list@) =~= entries(before).push(item@));
    list
}

/// An event sent to the user interface after the settings changed.
#[derive(Debug, Clone, Copy, PartialEq, Eq, Structural)]
pub enum ConfigEvent {
    /// The theme changed to this one.
    ThemeChanged(Theme),
    /// The language changed; the new one is in the settings.
    LocaleChanged,
    /// Showing the title in the tray was switched to this.
    TrayTitleChanged(bool),
    /// On macOS, the window's visibility on all workspaces becomes this.
    DockIconVisible(bool),
    /// Some settings changed; their names go with the event.
    ConfigUpdated,
}

/// Some name in the list is this one.
pub open spec fn names(changed: Seq<String>, key: Seq<char>) -> bool {
    exists|i: int| 0 <= i < changed.len() && #[trigger] changed[i]@ == key
}

/// The events after a settings change, in the order they are sent.
pub open spec fn config_events(changed: Seq<String>, config: AppConfig, is_macos: bool) -> Seq<ConfigEvent> {
    let a = if names(changed, "theme"@) { seq![ConfigEvent::ThemeChanged(config.theme)] } else { Seq::empty() };
    let b = if names(changed, "locale"@) { seq![ConfigEvent::LocaleChanged] } else { Seq::empty() };
    let c = if names(changed, "showTitleOnTray"@) {
        seq![ConfigEvent::TrayTitleChanged(config.show_title_on_tray)]
    } else {
        Seq::empty()
    };
    let d = if names(changed, "hideDockIcon"@) && is_macos {
        seq![ConfigEvent::DockIconVisible(!config.hide_dock_icon)]
    } else {
        Seq::empty()
    };
    a + b + c + d + seq![ConfigEvent::ConfigUpdated]
}

/// Whether some name in the list is this one.
pub fn names_key(changed: &[String], key: &str) -> (res: bool)
    ensures
        res == names(changed@, key@),
{
    let n = changed.len();
    let mut i: usize = 0;
    while i < n
        invariant
            n == changed@.len(),
            i <= n,
            forall|j: int| 0 <= j < i ==> #[trigger] changed@[j]@ != key@,
        decreases n - i,
    {
        if str_eq(changed[i].as_str(), key) {
            return true;
        }
        i = i + 1;
    }
    false
}

/// The events to send after the settings with these names changed.
pub fn config_side_effects(changed: &[String], config: &AppConfig, is_macos: bool) -> (res: Vec<ConfigEvent>)
    ensures
        res@ == config_events(changed@, *config, is_macos),
{
    let mut events: Vec<ConfigEvent> = Vec::new();
    if names_key(changed, "theme") {
        events.push(ConfigEvent::ThemeChanged(config.theme));
    }
    if names_key(changed, "locale") {
        events.push(ConfigEvent::LocaleChanged);
    }
    if names_key(changed, "showTitleOnTray") {
        events.push(ConfigEvent::TrayTitleChanged(config.show_title_on_tray));
    }
    if names_key(changed, "hideDockIcon") && is_macos {
        events.push(ConfigEvent::DockIconVisible(!config.hide_dock_icon));
    }
    events.push(ConfigEvent::ConfigUpdated);
    assert(events@ =~= config_events(changed@, *config, is_macos));
    events
}

} // verus!
