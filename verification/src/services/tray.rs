//! The texts and actions of the system tray.

use vstd::prelude::*;
use crate::text::{str_eq, to_owned_string};

verus! {

/// The items of the tray's right-click menu, in order, as (id, label):
/// show the main window, quick switch, preferences, check for updates,
/// quit; English labels when `is_en`, Chinese otherwise.
pub open spec fn tray_menu_items(is_en: bool) -> Seq<(Seq<char>, Seq<char>)> {
    if is_en {
        seq![
            ("show"@, "Show Window"@),
            ("quick_switch"@, "Quick Switch"@),
            ("prefs"@, "Preferences"@),
            ("check_update"@, "Check for Updates"@),
            ("quit"@, "Quit"@),
        ]
    } else {
        seq![
            ("show"@, "显示主窗口"@),
            ("quick_switch"@, "快速切换"@),
            ("prefs"@, "偏好设置"@),
            ("check_update"@, "检查更新"@),
            ("quit"@, "退出"@),
        ]
    }
}

fn menu_item(id: &str, label: &str) -> (res: (String, String))
    ensures
        res.0@ == id@,
        res.1@ == label@,
{
    (to_owned_string(id), to_owned_string(label))
}

/// The items of the tray's right-click menu, as (id, label).
pub fn tray_menu(is_en: bool) -> (res: Vec<(String, String)>)
    ensures
        res@.map_values(|p: (String, String)| (p.0@, p.1@)) == tray_menu_items(is_en),
{
    let mut items: Vec<(String, String)> = Vec::new();
    if is_en {
        items.push(menu_item("show", "Show Window"));
        items.push(menu_item("quick_switch", "Quick Switch"));
        items.push(menu_item("prefs", "Preferences"));
        items.push(menu_item("check_update", "Check for Updates"));
        items.push(menu_item("quit", "Quit"));
    } else {
        items.push(menu_item("show", "显示主窗口"));
        items.push(menu_item("quick_switch", "快速切换"));
        items.push(menu_item("prefs", "偏好设置"));
        items.push(menu_item("check_update", "检查更新"));
        items.push(menu_item("quit", "退出"));
    }
    assert(items@.map_values(|p: (String, String)| (p.0@, p.1@)) =~= tray_menu_items(is_en));
    items
}

/// What a click on a tray menu item does.
#[derive(Debug, Clone, Copy, PartialEq, Eq, Structural)]
pub enum TrayAction {
    /// Restore, show and focus the main window.
    ShowWindow,
    /// Open the mini window with the list of entries to switch.
    QuickSwitch,
    /// Show the main window and open the preferences.
    ShowPreferences,
    /// Check for a new version now.
    CheckUpdate,
    /// Quit the application.
    Quit,
    /// Nothing.
    Ignore,
}

/// The action of the tray menu item with this id.
pub fn tray_menu_action(id: &str) -> (res: TrayAction)
    ensures
        res == if id@ == "show"@ {
            TrayAction::ShowWindow
        } else if id@ == "quick_switch"@ {
            TrayAction::QuickSwitch
        } else if id@ == "prefs"@ {
            TrayAction::ShowPreferences
        } else if id@ == "check_update"@ {
            TrayAction::CheckUpdate
        } else if id@ == "quit"@ {
            TrayAction::Quit
        } else {
            TrayAction::Ignore
        },
{
    if str_eq(id, "show") {
        TrayAction::ShowWindow
    } else if str_eq(id, "quick_switch") {
        TrayAction::QuickSwitch
    } else if str_eq(id, "prefs") {
        TrayAction::ShowPreferences
    } else if str_eq(id, "check_update") {
        TrayAction::CheckUpdate
    } else if str_eq(id, "quit") {
        TrayAction::Quit
    } else {
        TrayAction::Ignore
    }
}

/// A left click on the tray icon hides a visible window and shows a hidden
/// one: whether the window should be visible afterwards.
pub fn tray_click_shows_window(window_visible: bool) -> (res: bool)
    ensures
        res == !window_visible,
{
    !window_visible
}

} // verus!
