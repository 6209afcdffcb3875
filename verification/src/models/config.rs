//! Application settings.

use vstd::prelude::*;
use crate::error::HostzError;
use crate::text::str_eq;

verus! {

/// How the enabled hosts text goes into the system hosts file.
#[derive(Debug, Clone, Copy, PartialEq, Eq, Structural)]
pub enum WriteMode {
    /// Keep the system file and replace what follows the marker line.
    Append,
    /// Replace the whole system file.
    Overwrite,
}

impl Default for WriteMode {
    fn default() -> (res: Self)
        ensures
            res == WriteMode::Append,
    {
        WriteMode::Append
    }
}

/// The colour theme of the user interface.
#[derive(Debug, Clone, Copy, PartialEq, Eq, Structural)]
pub enum Theme {
    Light,
    Dark,
    System,
}

impl Default for Theme {
    fn default() -> (res: Self)
        ensures
            res == Theme::Light,
    {
        Theme::Light
    }
}

/// All settings of the application.
#[derive(Debug)]
pub struct AppConfig {
    pub left_panel_show: bool,
    pub left_panel_width: i32,
    pub use_system_window_frame: bool,
    pub write_mode: WriteMode,
    pub history_limit: i32,
    pub locale: Option<String>,
    pub theme: Theme,
    pub choice_mode: i32,
    pub show_title_on_tray: bool,
    pub hide_at_launch: bool,
    pub send_usage_data: bool,
    pub cmd_after_hosts_apply: Option<String>,
    pub remove_duplicate_records: bool,
    pub hide_dock_icon: bool,
    pub tray_mini_window: bool,
    pub multi_chose_folder_switch_all: bool,
    pub auto_download_update: bool,
}

/// The value of a setting that is on unless stored otherwise.
pub fn default_true() -> (res: bool)
    ensures
        res,
{
    true
}

/// The default width of the left panel, in pixels.
pub fn default_left_panel_width() -> (res: i32)
    ensures
        res == 270,
{
    270
}

/// The default number of system hosts writes kept in the history.
pub fn default_history_limit() -> (res: i32)
    ensures
        res == 50,
{
    50
}

/// The default choice mode: several entries may be on at once.
pub fn default_choice_mode() -> (res: i32)
    ensures
        res == 2,
{
    2
}

/// The settings of a fresh installation.
pub open spec fn is_default_config(c: AppConfig) -> bool {
    &&& c.left_panel_show
    &&& c.left_panel_width == 270
    &&& !c.use_system_window_frame
    &&& c.write_mode == WriteMode::Append
    &&& c.history_limit == 50
    &&& c.locale is None
    &&& c.theme == Theme::Light
    &&& c.choice_mode == 2
    &&& !c.show_title_on_tray
    &&& !c.hide_at_launch
    &&& !c.send_usage_data
    &&& c.cmd_after_hosts_apply is None
    &&& !c.remove_duplicate_records
    &&& !c.hide_dock_icon
    &&& c.tray_mini_window
    &&& !c.multi_chose_folder_switch_all
    &&& c.auto_download_update
}

impl Default for AppConfig {
    fn default() -> (res: Self)
        ensures
            is_default_config(res),
    {
        AppConfig {
            left_panel_show: default_true(),
            left_panel_width: default_left_panel_width(),
            use_system_window_frame: false,
            write_mode: WriteMode::Append,
            history_limit: default_history_limit(),
            locale: None,
            theme: Theme::Light,
            choice_mode: default_choice_mode(),
            show_title_on_tray: false,
            hide_at_launch: false,
            send_usage_data: false,
            cmd_after_hosts_apply: None,
            remove_duplicate_records: false,
            hide_dock_icon: false,
            tray_mini_window: default_true(),
            multi_chose_folder_switch_all: false,
            auto_download_update: default_true(),
        }
    }
}

/// The settings a partial update may change, by their stored names.
pub open spec fn is_allowed_key(k: Seq<char>) -> bool {
    ||| k == "theme"@
    ||| k == "locale"@
    ||| k == "leftPanelWidth"@
    ||| k == "writeMode"@
    ||| k == "choiceMode"@
    ||| k == "historyLimit"@
    ||| k == "hideAtLaunch"@
    ||| k == "showTitleOnTray"@
    ||| k == "removeDuplicateRecords"@
    ||| k == "autoDownloadUpdate"@
    ||| k == "hideDockIcon"@
    ||| k == "trayMiniWindow"@
    ||| k == "multiChoseFolderSwitchAll"@
    ||| k == "cmdAfterHostsApply"@
}

/// Whether a partial update may change the setting with this name.
pub fn is_allowed_config_key(key: &str) -> (res: bool)
    ensures
        res == is_allowed_key(key@),
{
    str_eq(key, "theme") || str_eq(key, "locale") || str_eq(key, "leftPanelWidth")
        || str_eq(key, "writeMode") || str_eq(key, "choiceMode") || str_eq(key, "historyLimit")
        || str_eq(key, "hideAtLaunch") || str_eq(key, "showTitleOnTray")
        || str_eq(key, "removeDuplicateRecords") || str_eq(key, "autoDownloadUpdate")
        || str_eq(key, "hideDockIcon") || str_eq(key, "trayMiniWindow")
        || str_eq(key, "multiChoseFolderSwitchAll") || str_eq(key, "cmdAfterHostsApply")
}

/// Checks the names of a partial settings update: all must be known
/// settings; otherwise the first unknown one is reported and nothing is
/// to be written.
pub fn validate_config_keys(keys: &[String]) -> (res: Result<(), HostzError>)
    ensures
        res is Ok <==> forall|i: int| 0 <= i < keys@.len() ==> is_allowed_key(#[trigger] keys@[i]@),
        res matches Err(e) ==> exists|i: int| {
            &&& 0 <= i < keys@.len()
            &&& !is_allowed_key(#[trigger] keys@[i]@)
            &&& forall|j: int| 0 <= j < i ==> is_allowed_key(#[trigger] keys@[j]@)
            &&& e matches HostzError::UnknownConfigKey { key } && key@ == keys@[i]@
        },
{
    let n = keys.len();
    let mut i: usize = 0;
    while i < n
        invariant
            n == keys@.len(),
            i <= n,
            forall|j: int| 0 <= j < i ==> is_allowed_key(#[trigger] keys@[j]@),
        decreases n - i,
    {
        if !is_allowed_config_key(keys[i].as_str()) {
            let e = HostzError::UnknownConfigKey { key: keys[i].clone() };
            assert(!is_allowed_key(keys@[i as int]@));
            return Err(e);
        }
        i = i + 1;
    }
    Ok(())
}

} // verus!
