//! The texts of an elevated copy of the system hosts file, and what the
//! file read back after it says.

use vstd::prelude::*;
use crate::error::HostzError;
use crate::text::{chars_of, push_char, push_str, str_eq, to_owned_string};

verus! {

/// One character as it stands inside a single-quoted shell word of an
/// AppleScript string: a backslash doubled, a single quote closed, escaped
/// and reopened.
pub open spec fn applescript_escaped_char(c: char) -> Seq<char> {
    if c == '\\' {
        seq!['\\', '\\']
    } else if c == '\'' {
        seq!['\'', '\\', '\'', '\'']
    } else {
        seq![c]
    }
}

/// A path escaped for a single-quoted shell word inside an AppleScript
/// string: each `\` becomes `\\`, then each `'` becomes `'\''`.
pub open spec fn applescript_escaped(s: Seq<char>) -> Seq<char>
    decreases s.len(),
{
    if s.len() == 0 {
        Seq::empty()
    } else {
        applescript_escaped(s.drop_last()) + applescript_escaped_char(s.last())
    }
}

/// Escapes a path for a single-quoted shell word inside an AppleScript
/// string.
pub fn escape_applescript_path(s: &str) -> (res: String)
    ensures
        res@ == applescript_escaped(s@),
{
    let cs = chars_of(s);
    let n = cs.len();
    let mut res = String::new();
    let mut k: usize = 0;
    while k < n
        invariant
            n == cs@.len(),
            cs@ == s@,
            k <= n,
            res@ == applescript_escaped(cs@.take(k as int)),
        decreases n - k,
    {
        let c = cs[k];
        let ghost before = res@;
        if c == '\\' {
            push_char(&mut res, '\\');
            push_char(&mut res, '\\');
        } else if c == '\'' {
            push_char(&mut res, '\'');
            push_char(&mut res, '\\');
            push_char(&mut res, '\'');
            push_char(&mut res, '\'');
        } else {
            push_char(&mut res, c);
        }
        assert(cs@.take(k + 1).drop_last() =~= cs@.take(k as int));
        assert(res@ =~= before + applescript_escaped_char(c));
        k = k + 1;
    }
    assert(cs@.take(n as int) =~= cs@);
    res
}

/// The AppleScript that copies `src` over `dst` with administrator
/// rights on macOS.
pub fn applescript_copy(src: &str, dst: &str) -> (res: String)
    ensures
        res@ == "do shell script \"cp -f '"@ + applescript_escaped(src@) + "' '"@
            + applescript_escaped(dst@) + "'\" with administrator privileges"@,
{
    let mut res = to_owned_string("do shell script \"cp -f '");
    let s = escape_applescript_path(src);
    push_str(&mut res, s.as_str());
    push_str(&mut res, "' '");
    let d = escape_applescript_path(dst);
    push_str(&mut res, d.as_str());
    push_str(&mut res, "'\" with administrator privileges");
    res
}

/// The batch file that copies `src` over `dst` on Windows and exits with
/// the copy's status.
pub fn batch_copy_script(src: &str, dst: &str) -> (res: String)
    ensures
        res@ == "@echo off\r\ncopy /Y \""@ + src@ + "\" \""@ + dst@ + "\"\r\nexit /b %errorlevel%\r\n"@,
{
    let mut res = to_owned_string("@echo off\r\ncopy /Y \"");
    push_str(&mut res, src);
    push_str(&mut res, "\" \"");
    push_str(&mut res, dst);
    push_str(&mut res, "\"\r\nexit /b %errorlevel%\r\n");
    res
}

/// The PowerShell command that runs the batch file with administrator
/// rights on Windows, hidden, and waits for it.
pub fn powershell_elevation(bat_path: &str) -> (res: String)
    ensures
        res@ == "Start-Process -FilePath 'cmd.exe' -ArgumentList '/c \""@ + bat_path@
            + "\"' -Verb RunAs -Wait -WindowStyle Hidden"@,
{
    let mut res = to_owned_string("Start-Process -FilePath 'cmd.exe' -ArgumentList '/c \"");
    push_str(&mut res, bat_path);
    push_str(&mut res, "\"' -Verb RunAs -Wait -WindowStyle Hidden");
    res
}

/// What an elevated write achieved, from the system hosts file read back
/// after it (`None` when it could not be read): done exactly when the
/// file holds the written text.
pub fn elevated_write_outcome(read_back: Option<&str>, content: &str) -> (res: Result<(), HostzError>)
    ensures
        match read_back {
            Some(actual) => if actual@ == content@ {
                res is Ok
            } else {
                res matches Err(HostzError::ElevationNotApplied)
            },
            None => res matches Err(HostzError::ReadBackFailed),
        },
{
    match read_back {
        Some(actual) => if str_eq(actual, content) {
            Ok(())
        } else {
            Err(HostzError::ElevationNotApplied)
        },
        None => Err(HostzError::ReadBackFailed),
    }
}

} // verus!
