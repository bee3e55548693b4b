use smartcut_core::netpath::{
    unescape,
    eq_ci, gvfs_share, holding, is_remote, is_remote_kind, is_share_path, local, mount_line,
    mount_of, mounts, parse, resolve, Entry, Mount, Share,
};


fn share(host: &str, name: &str, rest: &str) -> Share {
    Share { host: host.into(), share: name.into(), rest: rest.into() }
}

#[test]
fn parses_both_spellings() {
    assert_eq!(parse("smb://nas/rec/a.ts"), Some(share("nas", "rec", "a.ts")));
    assert_eq!(parse(r"\\nas\rec\sub\a.ts"), Some(share("nas", "rec", "sub/a.ts")));
    assert_eq!(parse("SMB://nas/rec/"), Some(share("nas", "rec", "")));
    assert_eq!(parse("  smb://nas/rec  "), Some(share("nas", "rec", "")));
}

#[test]
fn leaves_ordinary_paths_alone() {
    assert_eq!(parse("/mnt/rec/a.ts"), None);
    assert_eq!(parse("//nas/rec/a.ts"), None);
    assert_eq!(parse(r"C:\rec\a.ts"), None);
    assert_eq!(parse("smb://nas"), None);
}

#[test]
fn decodes_the_url_form_only() {
    assert_eq!(parse("smb://nas/録画%202026/a%20b.ts").unwrap().rest, "a b.ts");
    assert_eq!(parse("smb://nas/rec/100%.ts").unwrap().rest, "100%.ts");
    assert_eq!(parse(r"\\nas\rec\100%20.ts").unwrap().rest, "100%20.ts");
}

#[test]
fn spells_a_share_back() {
    let s = parse("smb://nas/rec/sub/a.ts").unwrap();
    assert_eq!(s.unc(), r"\\nas\rec\sub\a.ts");
    assert_eq!(s.url(), "smb://nas/rec/sub/a.ts");
    assert_eq!(parse(r"\\nas\rec").unwrap().unc(), r"\\nas\rec");
}

#[test]
fn reads_kernel_mount_lines() {
    let line = r"//nas/rec\040and\040more /mnt/rec cifs rw,vers=3.1.1 0 0";
    let m = mount_line(line).unwrap();
    assert_eq!(m.host, "nas");
    assert_eq!(m.share, "rec and more");
    assert_eq!(m.at, "/mnt/rec");
    assert!(mount_line("/dev/sda1 / ext4 rw 0 0").is_none());
    assert!(mount_line("//nas/rec /mnt/rec nfs rw 0 0").is_none());
}

#[test]
fn reads_gvfs_directory_names() {
    assert_eq!(
        gvfs_share("smb-share:server=nas,share=rec"),
        Some(("nas".into(), "rec".into()))
    );
    assert_eq!(
        gvfs_share("smb-share:domain=WORKGROUP,server=NAS,share=%E9%8C%B2%E7%94%BB,user=kaz"),
        Some(("NAS".into(), "録画".into()))
    );
    assert_eq!(gvfs_share("sftp:host=nas"), None);
    assert_eq!(gvfs_share("smb-share:server=nas"), None);
}

#[test]
fn matches_a_mount_case_insensitively() {
    assert!(eq_ci("NAS", "nas"));
    assert!(!eq_ci("nas2", "nas"));
}

#[test]
fn a_recording_is_placed_on_the_mount_it_is_actually_under() {
    // Four mounts, two of them nested, and one whose name is a prefix of
    // another's without being its parent.
    let table = "\
/dev/sda2 / ext4 rw,relatime 0 0
//nas/rec /mnt/rec cifs rw,relatime 0 0
/dev/sdb1 /mnt ext4 rw,relatime 0 0
nas:/export /mnt/nfs nfs4 rw,relatime 0 0
/dev/sdc1 /mnt/recordings ext4 rw,relatime 0 0
";
    let kind = |p: &str| holding(table, p);
    // The share, not the local disc it is nested inside.
    assert_eq!(kind("/mnt/rec/2026-09-01.ts").as_deref(), Some("cifs"));
    assert_eq!(kind("/mnt/nfs/a.ts").as_deref(), Some("nfs4"));
    // A longer name that merely starts the same way is a different mount.
    assert_eq!(kind("/mnt/recordings/a.ts").as_deref(), Some("ext4"));
    assert_eq!(kind("/mnt/other/a.ts").as_deref(), Some("ext4"));
    assert_eq!(kind("/home/kaz/a.ts").as_deref(), Some("ext4"));

    // And what the answer is used for: whether reading the file twice
    // costs twice.
    let remote = |p: &str| {
        holding(table, p)
            .is_some_and(|k| is_remote_kind(k.as_str()))
    };
    assert!(remote("/mnt/rec/2026-09-01.ts"));
    assert!(remote("/mnt/nfs/a.ts"));
    assert!(!remote("/mnt/recordings/a.ts"));
    assert!(!remote("/home/kaz/a.ts"));
}

#[test]
fn a_mount_point_with_a_space_in_it_is_read_back_whole() {
    // `/proc/self/mounts` writes a space as \040, and a mount point that
    // came back split in two would match nothing.
    let table = "//nas/my\\040share /mnt/my\\040share cifs rw 0 0\n";
    assert_eq!(
        holding(table, "/mnt/my share/a.ts").as_deref(),
        Some("cifs")
    );
}

/// The table and the desktop's directories, in that order.
#[test]
fn kernel_mounts_come_before_the_desktops() {
    let table = "/dev/sda1 / ext4 rw 0 0\n//nas/rec /mnt/rec cifs rw 0 0\r\n";
    let entries = [
        Entry { name: "smb-share:server=nas,share=films".into(), path: "/run/a".into() },
        Entry { name: "sftp:host=nas".into(), path: "/run/b".into() },
    ];
    let all = mounts(table, &entries);
    assert_eq!(all.len(), 2);
    assert_eq!(all[0].at, "/mnt/rec");
    assert_eq!((all[1].share.as_str(), all[1].at.as_str()), ("films", "/run/a"));
}

#[test]
fn a_share_is_opened_where_it_is_mounted() {
    let mounted = [Mount { host: "NAS".into(), share: "Rec".into(), at: "/mnt/rec".into() }];
    assert_eq!(mount_of(&share("nas", "rec", ""), &mounted).as_deref(), Some("/mnt/rec"));
    assert_eq!(local(&share("nas", "rec", "a/b.ts"), &mounted).unwrap(), "/mnt/rec/a/b.ts");
    assert_eq!(local(&share("nas", "rec", ""), &mounted).unwrap(), "/mnt/rec");
    assert_eq!(resolve("smb://nas/rec/a.ts", &mounted).unwrap(), "/mnt/rec/a.ts");
    assert_eq!(resolve("/home/a.ts", &mounted).unwrap(), "/home/a.ts");
    let missing = resolve(r"\\other\rec\a.ts", &mounted).unwrap_err();
    assert_eq!(missing.message(), r"\\other\rec\a.ts is not mounted");
}

/// Spelled out and read back, a share is the share it was.
#[test]
fn a_spelling_reads_back() {
    let s = share("nas", "my films", "a/b c.ts");
    assert_eq!(parse(&s.unc()), Some(share("nas", "my films", "a/b c.ts")));
    assert_eq!(parse(&s.url()), Some(share("nas", "my films", "a/b c.ts")));
    // Two spellings Windows keeps for itself.
    assert_eq!(parse(r"\\?\C:\a.ts"), None);
    assert_eq!(parse(r"\\.\C:\a.ts"), None);
}

/// Bytes that are no text come through as what can be had of them.
#[test]
fn an_escape_that_is_no_text_is_replaced() {
    assert_eq!(parse("smb://nas/rec/a%FF.ts").unwrap().rest, "a\u{FFFD}.ts");
    assert_eq!(parse("smb://nas/rec/%e9%8c%b2.ts").unwrap().rest, "録.ts");
    assert_eq!(parse("smb://nas/rec/%zz.ts").unwrap().rest, "%zz.ts");
}

#[test]
fn a_path_is_remote_where_its_mount_is() {
    let table = "/dev/sda2 / ext4 rw 0 0\nnas:/x /mnt/x nfs rw 0 0\n";
    assert!(is_remote("/mnt/x/a.ts", table));
    assert!(!is_remote("/mnt/y/a.ts", table));
    assert!(!is_remote("/mnt/x/a.ts", ""));
    assert!(is_share_path(r"\\nas\rec"));
    assert!(!is_share_path(r"\\?\C:\rec"));
    assert!(!is_share_path("/mnt"));
}

#[test]
fn a_mount_tables_escapes_are_read_back() {
    assert_eq!(unescape("/mnt/\\040a\\134b"), "/mnt/ a\\b");
    assert_eq!(unescape("/mnt/\\04"), "/mnt/\\04");
    assert_eq!(unescape("/mnt/\\999"), "/mnt/\\999");
}

#[test]
fn a_share_is_found_in_any_case() {
    let table = "//NAS/Rec /mnt/rec cifs rw 0 0\n//nas/rec /mnt/again cifs rw 0 0\n";
    let all = mounts(table, &[]);
    for spelt in [share("NAS", "Rec", ""), share("nas", "REC", "a.ts"), share("Nas", "rec", "")] {
        assert_eq!(mount_of(&spelt, &all).as_deref(), Some("/mnt/rec"));
    }
    assert_eq!(mount_of(&share("nas", "films", ""), &all), None);
    assert!(eq_ci("録画", "録画") && !eq_ci("録画", "録音"));
    assert!(eq_ci("ÄB", "äb"));
}
