//! The texts of desktop notifications.

use vstd::prelude::*;
use crate::text::{push_str, to_owned_string};

verus! {

/// A desktop notification: its summary line and its body.
#[derive(Debug)]
pub struct Notice {
    pub summary: String,
    pub body: String,
}

/// The notification that a remote entry was refreshed.
pub fn remote_refreshed(title: &str) -> (res: Notice)
    ensures
        res.summary@ == "远程刷新成功"@,
        res.body@ == "「"@ + title@ + "」已更新"@,
{
    let mut body = to_owned_string("「");
    push_str(&mut body, title);
    push_str(&mut body, "」已更新");
    Notice { summary: to_owned_string("远程刷新成功"), body }
}

/// The notification that a refresh of a remote entry failed.
pub fn remote_refresh_failed(title: &str, error: &str) -> (res: Notice)
    ensures
        res.summary@ == "远程刷新失败"@,
        res.body@ == "「"@ + title@ + "」: "@ + error@,
{
    let mut body = to_owned_string("「");
    push_str(&mut body, title);
    push_str(&mut body, "」: ");
    push_str(&mut body, error);
    Notice { summary: to_owned_string("远程刷新失败"), body }
}

/// The notification that a new version can be downloaded.
pub fn update_available(version: &str) -> (res: Notice)
    ensures
        res.summary@ == "发现新版本"@,
        res.body@ == "HostZ "@ + version@ + " 可供下载"@,
{
    let mut body = to_owned_string("HostZ ");
    push_str(&mut body, version);
    push_str(&mut body, " 可供下载");
    Notice { summary: to_owned_string("发现新版本"), body }
}

} // verus!
