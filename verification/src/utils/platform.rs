//! Where the system hosts file and the application's data live, as path
//! components; the caller reads the environment and joins them.

use vstd::prelude::*;
use crate::models::hosts::strings_view;
use crate::text::to_owned_string;

verus! {

/// The operating system the application runs on.
#[derive(Debug, Clone, Copy, PartialEq, Eq, Structural)]
pub enum Os {
    Windows,
    MacOs,
    Linux,
}

/// The text, or the fallback when there is none.
pub open spec fn or_else(s: Option<&str>, fallback: Seq<char>) -> Seq<char> {
    match s {
        Some(t) => t@,
        None => fallback,
    }
}

fn owned_or(s: Option<&str>, fallback: &str) -> (res: String)
    ensures
        res@ == or_else(s, fallback@),
{
    match s {
        Some(t) => to_owned_string(t),
        None => to_owned_string(fallback),
    }
}

/// The components of the system hosts file's path: under the Windows
/// directory (`C:\Windows` when the `windir` variable is unset) on
/// Windows, `/etc/hosts` elsewhere.
pub fn system_hosts_path(os: Os, windir: Option<&str>) -> (res: Vec<String>)
    ensures
        strings_view(res@) == if os == Os::Windows {
            seq![or_else(windir, "C:\\Windows"@), "System32"@, "drivers"@, "etc"@, "hosts"@]
        } else {
            seq!["/etc/hosts"@]
        },
{
    let mut res: Vec<String> = Vec::new();
    if os == Os::Windows {
        res.push(owned_or(windir, "C:\\Windows"));
        res.push(to_owned_string("System32"));
        res.push(to_owned_string("drivers"));
        res.push(to_owned_string("etc"));
        res.push(to_owned_string("hosts"));
    } else {
        res.push(to_owned_string("/etc/hosts"));
    }
    assert(strings_view(res@) =~= if os == Os::Windows {
        seq![or_else(windir, "C:\\Windows"@), "System32"@, "drivers"@, "etc"@, "hosts"@]
    } else {
        seq!["/etc/hosts"@]
    });
    res
}

/// The components of the application's data directory: `%APPDATA%\HostZ`
/// on Windows, `~/Library/Application Support/HostZ` on macOS,
/// `~/.config/HostZ` elsewhere, with `.` for an unset variable.
pub open spec fn app_data_dir_parts(os: Os, appdata: Option<&str>, home: Option<&str>) -> Seq<Seq<char>> {
    match os {
        Os::Windows => seq![or_else(appdata, "."@), "HostZ"@],
        Os::MacOs => seq![or_else(home, "."@), "Library"@, "Application Support"@, "HostZ"@],
        Os::Linux => seq![or_else(home, "."@), ".config"@, "HostZ"@],
    }
}

/// The components of the application's data directory.
pub fn app_data_dir(os: Os, appdata: Option<&str>, home: Option<&str>) -> (res: Vec<String>)
    ensures
        strings_view(res@) == app_data_dir_parts(os, appdata, home),
{
    let mut res: Vec<String> = Vec::new();
    match os {
        Os::Windows => {
            res.push(owned_or(appdata, "."));
            res.push(to_owned_string("HostZ"));
        },
        Os::MacOs => {
            res.push(owned_or(home, "."));
            res.push(to_owned_string("Library"));
            res.push(to_owned_string("Application Support"));
            res.push(to_owned_string("HostZ"));
        },
        Os::Linux => {
            res.push(owned_or(home, "."));
            res.push(to_owned_string(".config"));
            res.push(to_owned_string("HostZ"));
        },
    }
    assert(strings_view(res@) =~= app_data_dir_parts(os, appdata, home));
    res
}

/// The components of the directory of the hosts database.
pub fn data_dir(os: Os, appdata: Option<&str>, home: Option<&str>) -> (res: Vec<String>)
    ensures
        strings_view(res@) == app_data_dir_parts(os, appdata, home).push("data"@),
{
    let mut res = app_data_dir(os, appdata, home);
    let ghost before = res@;
    res.push(to_owned_string("data"));
    assert(strings_view(res@) =~= strings_view(before).push("data"@));
    res
}

/// The components of the directory of the settings database.
pub fn config_dir(os: Os, appdata: Option<&str>, home: Option<&str>) -> (res: Vec<String>)
    ensures
        strings_view(res@) == app_data_dir_parts(os, appdata, home).push("config"@),
{
    let mut res = app_data_dir(os, appdata, home);
    let ghost before = res@;
    res.push(to_owned_string("config"));
    assert(strings_view(res@) =~= strings_view(before).push("config"@));
    res
}

} // verus!
