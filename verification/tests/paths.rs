//! Where things are kept.

use agent_frow::autostart::{command, executable};
use agent_frow::paths::{
    file_name, home, install_dir, join, last_seen_file, root, settings_file, token_file, token_in,
    token_of,
};

#[test]
fn everything_is_under_one_directory() {
    let home = home(Some("C:\\Users\\me"), Some("/home/me"));
    assert_eq!(home.as_deref(), Some("C:\\Users\\me"));
    let root = root(home.as_deref(), '\\');
    assert_eq!(root.as_deref(), Some("C:\\Users\\me\\.agent-frow"));
    assert_eq!(
        token_file(None, root.as_deref(), '\\').as_deref(),
        Some("C:\\Users\\me\\.agent-frow\\token")
    );
    assert_eq!(
        token_file(Some("D:\\t"), root.as_deref(), '\\').as_deref(),
        Some("D:\\t")
    );
    assert_eq!(
        last_seen_file(root.as_deref(), '\\').as_deref(),
        Some("C:\\Users\\me\\.agent-frow\\last-seen.json")
    );
    let dir = install_dir(Some("C:\\L"), root.as_deref(), '\\');
    assert_eq!(dir.as_deref(), Some("C:\\L\\agent-frow"));
    assert_eq!(
        install_dir(None, root.as_deref(), '\\').as_deref(),
        Some("C:\\Users\\me\\.agent-frow\\bin")
    );
    assert_eq!(
        settings_file(dir.as_deref(), '\\').as_deref(),
        Some("C:\\L\\agent-frow\\settings.json")
    );
}

#[test]
fn without_a_home_there_is_nowhere() {
    assert_eq!(home(None, None), None);
    assert_eq!(home(None, Some("/home/me")).as_deref(), Some("/home/me"));
    assert_eq!(root(None, '/'), None);
    assert_eq!(token_file(None, None, '/'), None);
    assert_eq!(install_dir(None, None, '/'), None);
    assert_eq!(settings_file(None, '/'), None);
}

#[test]
fn a_token_is_its_bytes_in_hexadecimal() {
    assert_eq!(token_of(&vec![0, 10, 255]), "000aff");
    assert_eq!(token_in(Some(" 000aff\n")).as_deref(), Some("000aff"));
    assert_eq!(token_in(Some("\n")), None);
    assert_eq!(token_in(None), None);
}

#[test]
fn a_path_is_joined_with_one_separator() {
    assert_eq!(join("/home/me", ".agent", '/'), "/home/me/.agent");
    assert_eq!(join("C:\\", "x", '\\'), "C:\\x");
    assert_eq!(file_name("C:\\dev\\agent-frow").as_deref(), Some("agent-frow"));
    assert_eq!(file_name("/dev/agent-frow/").as_deref(), Some("agent-frow"));
    assert_eq!(file_name("/"), None);
}

#[test]
fn a_volume_is_no_name() {
    assert_eq!(file_name("\\\\server\\share"), None);
    assert_eq!(file_name("\\\\server\\share\\"), None);
    assert_eq!(file_name("//server/share/dev").as_deref(), Some("dev"));
    assert_eq!(file_name("\\\\server").as_deref(), Some("server"));
    assert_eq!(file_name("\\\\wsl.localhost\\Ubuntu\\home\\me\\dev").as_deref(), Some("dev"));
    assert_eq!(file_name("C:"), None);
    assert_eq!(file_name("C:\\"), None);
    assert_eq!(file_name("C:."), None);
    assert_eq!(file_name("C:dev").as_deref(), Some("dev"));
    assert_eq!(file_name("1:").as_deref(), Some("1:"));
    assert_eq!(file_name("\\\\.\\COM1"), None);
    assert_eq!(file_name("\\\\?\\C:"), None);
    assert_eq!(file_name("\\\\?\\C:\\dev").as_deref(), Some("dev"));
    assert_eq!(file_name("\\\\?\\C:\\dev\\."), None);
    assert_eq!(file_name("\\\\?\\UNC\\server\\share"), None);
    assert_eq!(file_name("\\\\?\\UNC\\server\\share\\dev").as_deref(), Some("dev"));
    assert_eq!(file_name("\\\\?\\Volume\\a/b").as_deref(), Some("a/b"));
    assert_eq!(file_name("/home/me/dev/.").as_deref(), Some("dev"));
    assert_eq!(file_name("/home/me/.."), None);
    assert_eq!(file_name("."), None);
}

#[test]
fn a_drive_alone_is_joined_without_a_separator() {
    assert_eq!(join("C:", "x", '\\'), "C:x");
    assert_eq!(join("C:", "x", '/'), "C:/x");
    assert_eq!(join("\\\\server\\share", "x", '\\'), "\\\\server\\share\\x");
    assert_eq!(join("1:", "x", '\\'), "1:\\x");
    assert_eq!(join("", "x", '\\'), "x");
}

#[test]
fn the_startup_entry_is_the_installed_copy() {
    let exe = executable(Some("C:\\L\\agent-frow")).unwrap();
    assert_eq!(exe, "C:\\L\\agent-frow\\agent-frow.exe");
    assert_eq!(
        command(&exe, true).unwrap(),
        "\"C:\\L\\agent-frow\\agent-frow.exe\""
    );
    assert_eq!(
        command(&exe, false).err().as_deref(),
        Some("install first — the startup entry points at the installed copy")
    );
    assert_eq!(executable(None).err().as_deref(), Some("no install directory"));
}
