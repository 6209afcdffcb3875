//! The errors that the library's operations report.

use vstd::prelude::*;
use crate::text::push_str;

verus! {

/// Why an operation on the hosts data was refused.
#[derive(Debug)]
pub enum HostzError {
    /// No entry of the list has this id.
    ItemNotFound { id: String },
    /// No item of the trash can holds an entry with this id.
    TrashItemNotFound { id: String },
    /// The entry has no URL to refresh from.
    NotRemote,
    /// The groups included from this entry nest deeper than the list is
    /// long, which only a group that includes itself, directly or through
    /// other groups, can do.
    IncludeTooDeep { id: String },
    /// The find pattern is not a valid regular expression.
    InvalidPattern { message: String },
    /// A configuration update names a key that is not a known setting.
    UnknownConfigKey { key: String },
    /// The answer about the latest release is not JSON.
    InvalidRelease { message: String },
    /// The elevated copy ran but the system hosts file does not hold the
    /// written text.
    ElevationNotApplied,
    /// The system hosts file could not be read back after the elevated copy.
    ReadBackFailed,
}

/// The text shown to the user for an error.
pub open spec fn error_text(e: HostzError) -> Seq<char> {
    match e {
        HostzError::ItemNotFound { id } => "条目未找到: "@ + id@,
        HostzError::TrashItemNotFound { id } => "回收站中未找到条目: "@ + id@,
        HostzError::NotRemote => "非远程条目，无法刷新"@,
        HostzError::IncludeTooDeep { id } => "组合条目引用成环: "@ + id@,
        HostzError::InvalidPattern { message } => "正则表达式无效: "@ + message@,
        HostzError::UnknownConfigKey { key } => "未知配置项: "@ + key@,
        HostzError::InvalidRelease { message } => "解析响应失败: "@ + message@,
        HostzError::ElevationNotApplied => "提权操作未生效，请以管理员身份运行 HostZ"@,
        HostzError::ReadBackFailed => "写入后无法读取验证，请以管理员身份运行 HostZ"@,
    }
}

impl HostzError {
    /// The text shown to the user for this error.
    pub fn message(&self) -> (res: String)
        ensures
            res@ == error_text(*self),
    {
        let mut s = String::new();
        match self {
            HostzError::ItemNotFound { id } => {
                push_str(&mut s, "条目未找到: ");
                push_str(&mut s, id.as_str());
            },
            HostzError::TrashItemNotFound { id } => {
                push_str(&mut s, "回收站中未找到条目: ");
                push_str(&mut s, id.as_str());
            },
            HostzError::NotRemote => {
                push_str(&mut s, "非远程条目，无法刷新");
            },
            HostzError::IncludeTooDeep { id } => {
                push_str(&mut s, "组合条目引用成环: ");
                push_str(&mut s, id.as_str());
            },
            HostzError::InvalidPattern { message } => {
                push_str(&mut s, "正则表达式无效: ");
                push_str(&mut s, message.as_str());
            },
            HostzError::UnknownConfigKey { key } => {
                push_str(&mut s, "未知配置项: ");
                push_str(&mut s, key.as_str());
            },
            HostzError::InvalidRelease { message } => {
                push_str(&mut s, "解析响应失败: ");
                push_str(&mut s, message.as_str());
            },
            HostzError::ElevationNotApplied => {
                push_str(&mut s, "提权操作未生效，请以管理员身份运行 HostZ");
            },
            HostzError::ReadBackFailed => {
                push_str(&mut s, "写入后无法读取验证，请以管理员身份运行 HostZ");
            },
        }
        s
    }
}

} // verus!
