use hostz::error::HostzError;
use hostz::hosts_core::privilege::{
    applescript_copy, batch_copy_script, elevated_write_outcome, escape_applescript_path, powershell_elevation,
};

#[test]
fn applescript_escape_doubles_backslashes_then_quotes_quotes() {
    assert_eq!(escape_applescript_path("/tmp/a b"), "/tmp/a b");
    assert_eq!(escape_applescript_path("a\\b"), "a\\\\b");
    assert_eq!(escape_applescript_path("it's"), "it'\\''s");
    assert_eq!(escape_applescript_path("\\'"), "\\\\'\\''");
    assert_eq!(escape_applescript_path(""), "");
}

#[test]
fn elevation_texts() {
    assert_eq!(
        applescript_copy("/tmp/x's", "/etc/hosts"),
        "do shell script \"cp -f '/tmp/x'\\''s' '/etc/hosts'\" with administrator privileges"
    );
    assert_eq!(
        batch_copy_script("C:\\t\\a.tmp", "C:\\Windows\\System32\\drivers\\etc\\hosts"),
        "@echo off\r\ncopy /Y \"C:\\t\\a.tmp\" \"C:\\Windows\\System32\\drivers\\etc\\hosts\"\r\nexit /b %errorlevel%\r\n"
    );
    assert_eq!(
        powershell_elevation("C:\\t\\c.bat"),
        "Start-Process -FilePath 'cmd.exe' -ArgumentList '/c \"C:\\t\\c.bat\"' -Verb RunAs -Wait -WindowStyle Hidden"
    );
}

#[test]
fn elevated_write_is_checked_by_reading_back() {
    assert!(elevated_write_outcome(Some("1.1.1.1 a\n"), "1.1.1.1 a\n").is_ok());
    assert!(matches!(elevated_write_outcome(Some("old"), "new"), Err(HostzError::ElevationNotApplied)));
    assert!(matches!(elevated_write_outcome(None, "new"), Err(HostzError::ReadBackFailed)));
    assert_eq!(HostzError::ReadBackFailed.message(), "写入后无法读取验证，请以管理员身份运行 HostZ");
    assert_eq!(HostzError::ElevationNotApplied.message(), "提权操作未生效，请以管理员身份运行 HostZ");
}
