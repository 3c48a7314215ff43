use tyla::desktop::{data_dirs, parse_desktop_entry, DesktopFileError};

#[test]
fn parses_an_application_entry() {
    let content = b"[Desktop Entry]\nType=Application\nName=Firefox\nIcon=firefox\nExec=firefox\nTerminal=false\n";
    let e = parse_desktop_entry(content).unwrap().unwrap();
    assert_eq!(e.name, "Firefox");
    assert_eq!(e.icon.as_deref(), Some("firefox"));
    assert_eq!(e.cmd, "firefox");
    assert!(!e.terminal);
}

#[test]
fn leading_blanks_comments_and_empty_lines_are_skipped() {
    let content = b"# a comment\n\n  [Desktop Entry]\n\t Name=Htop\n   # Exec=nope\nExec=htop\nType=Application\nTerminal=true";
    let e = parse_desktop_entry(content).unwrap().unwrap();
    assert_eq!(e.name, "Htop");
    assert_eq!(e.cmd, "htop");
    assert_eq!(e.icon, None);
    assert!(e.terminal);
}

#[test]
fn keys_of_other_groups_are_ignored() {
    let content = b"[Desktop Entry]\nName=Files\nType=Application\nExec=nautilus\n[Desktop Action new]\nName=New Window\nExec=nautilus --new-window\n";
    let e = parse_desktop_entry(content).unwrap().unwrap();
    assert_eq!(e.name, "Files");
    assert_eq!(e.cmd, "nautilus");
}

#[test]
fn keys_before_the_group_are_ignored() {
    let content = b"Name=Outside\n[Desktop Entry]\nType=Application\nExec=x\n";
    assert!(parse_desktop_entry(content).unwrap().is_none());
}

#[test]
fn later_values_replace_earlier_ones() {
    let content = b"[Desktop Entry]\nName=A\nName=B\nType=Application\nExec=a\nExec=b\nType=Link\nType=Application\n";
    let e = parse_desktop_entry(content).unwrap().unwrap();
    assert_eq!(e.name, "B");
    assert_eq!(e.cmd, "b");
}

#[test]
fn exec_with_field_codes_is_ignored() {
    let content = b"[Desktop Entry]\nName=Editor\nType=Application\nExec=editor %F\n";
    assert!(parse_desktop_entry(content).unwrap().is_none());
    let content = b"[Desktop Entry]\nName=Editor\nType=Application\nExec=editor\nExec=editor %F\n";
    assert_eq!(parse_desktop_entry(content).unwrap().unwrap().cmd, "editor");
}

#[test]
fn missing_name_command_or_type_gives_none() {
    assert!(parse_desktop_entry(b"[Desktop Entry]\nType=Application\nExec=x\n").unwrap().is_none());
    assert!(parse_desktop_entry(b"[Desktop Entry]\nName=X\nType=Application\n").unwrap().is_none());
    assert!(parse_desktop_entry(b"[Desktop Entry]\nName=X\nExec=x\n").unwrap().is_none());
    assert!(parse_desktop_entry(b"[Desktop Entry]\nName=X\nExec=x\nType=Link\n").unwrap().is_none());
    assert!(parse_desktop_entry(b"").unwrap().is_none());
}

#[test]
fn values_keep_everything_after_the_first_equals_sign() {
    let content = b"[Desktop Entry]\nName=a=b \nType=Application\nExec=env A=1 prog\n";
    let e = parse_desktop_entry(content).unwrap().unwrap();
    assert_eq!(e.name, "a=b ");
    assert_eq!(e.cmd, "env A=1 prog");
}

#[test]
fn keys_must_match_exactly() {
    let content = b"[Desktop Entry]\nName =X\nName[de]=Y\nType=Application\nExec=x\n";
    assert!(parse_desktop_entry(content).unwrap().is_none());
    let content = b"[Desktop Entry]\nName=X\nType=Application \nExec=x\n";
    assert!(parse_desktop_entry(content).unwrap().is_none());
}

#[test]
fn invalid_utf8_in_a_kept_value_is_an_error() {
    let content = b"[Desktop Entry]\nName=\xff\xfe\nType=Application\nExec=x\n";
    assert_eq!(parse_desktop_entry(content).unwrap_err(), DesktopFileError::InvalidUtf8);
    let content = b"[Desktop Entry]\nName=X\nType=Application\nExec=x\nIcon=\xc3\n";
    assert_eq!(parse_desktop_entry(content).unwrap_err(), DesktopFileError::InvalidUtf8);
    // other keys may hold anything
    let content = b"[Desktop Entry]\nName=X\nComment=\xff\nType=Application\nExec=x\n";
    assert!(parse_desktop_entry(content).unwrap().is_some());
}

#[test]
fn unicode_values_are_decoded() {
    let content = "[Desktop Entry]\nName=Café ☕\nType=Application\nExec=café\n".as_bytes();
    let e = parse_desktop_entry(content).unwrap().unwrap();
    assert_eq!(e.name, "Café ☕");
    assert_eq!(e.cmd, "café");
}

#[test]
fn group_header_must_start_the_line_text() {
    let content = b"[Desktop Entry] trailing\nName=X\nType=Application\nExec=x\n";
    assert!(parse_desktop_entry(content).unwrap().is_some());
    let content = b"[Desktop Entr]\nName=X\nType=Application\nExec=x\n";
    assert!(parse_desktop_entry(content).unwrap().is_none());
}

#[test]
fn data_dirs_split_the_variable() {
    assert_eq!(data_dirs(Some("/a:/b")), vec!["/a".to_string(), "/b".to_string()]);
    assert_eq!(data_dirs(Some("/a::/b:")), vec!["/a", "", "/b", ""]);
    assert_eq!(data_dirs(Some("")), vec![""]);
}

#[test]
fn data_dirs_default_without_the_variable() {
    assert_eq!(data_dirs(None), vec!["/usr/local/share", "/usr/share", "~/.local/share"]);
}

#[test]
fn data_dirs_join_back_to_the_variable() {
    for v in ["/a:/b", "", ":", "/usr/share::/opt/x:"] {
        assert_eq!(data_dirs(Some(v)).join(":"), v);
    }
}
