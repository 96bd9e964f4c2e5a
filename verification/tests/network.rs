use omafiles::network::{derive_name, host_of, looks_like_uri, mount, mount_point, unmount};

#[test]
fn names_read_like_a_person_would_say_them() {
    assert_eq!(derive_name("smb://nas.local/media"), "media on nas.local");
    assert_eq!(derive_name("sftp://alois@server/home/alois"), "home on server");
    assert_eq!(derive_name("ftp://ftp.example.org"), "ftp.example.org");
    assert_eq!(derive_name("davs://cloud.example.org/dav/files"), "dav on cloud.example.org");
}

#[test]
fn uri_sanity_wants_a_scheme_and_a_host() {
    assert!(looks_like_uri("smb://nas/share"));
    assert!(looks_like_uri("sftp://user@host:2222/dir"));
    assert!(!looks_like_uri("nas/share"));
    assert!(!looks_like_uri("://nothing"));
    assert!(!looks_like_uri("smb://"));
}

#[test]
fn the_host_drops_the_user_and_the_port() {
    assert_eq!(host_of("sftp://user@host:2222/dir"), Some("host".to_string()));
    assert_eq!(host_of("smb://nas"), Some("nas".to_string()));
    assert_eq!(host_of("nas/share"), None);
    assert_eq!(host_of("smb://:445/x"), None);
}

#[test]
fn finds_the_mount_gvfs_created() {
    let names = vec!["smb-share:server=nas.local,share=media".to_string(), "sftp:host=devbox,user=alois".to_string()];
    assert_eq!(mount_point("smb://nas.local/media", "/run/gvfs", &names), Some("/run/gvfs/smb-share:server=nas.local,share=media".to_string()));
    assert_eq!(mount_point("sftp://alois@devbox/home", "/run/gvfs", &names), Some("/run/gvfs/sftp:host=devbox,user=alois".to_string()));
    assert_eq!(mount_point("smb://elsewhere/x", "/run/gvfs", &names), None);
    assert_eq!(mount_point("smb://nas.local/other", "/run/gvfs", &names), None, "the share must match too");
}

#[test]
fn gio_refusals_are_worded() {
    assert_eq!(mount("smb://x/y", Ok((true, String::new()))), Ok(()));
    assert_eq!(mount("smb://x/y", Ok((false, "Location is already mounted\n".to_string()))), Ok(()));
    assert_eq!(mount("smb://x/y", Ok((false, String::new()))), Err("could not mount smb://x/y".to_string()));
    assert_eq!(mount("smb://x/y", Err("not found".to_string())), Err("could not run gio: not found".to_string()));
    assert_eq!(unmount("smb://x/y", Ok((false, " busy ".to_string()))), Err("busy".to_string()));
    assert_eq!(unmount("smb://x/y", Ok((false, "already mounted".to_string()))), Err("already mounted".to_string()));
}
