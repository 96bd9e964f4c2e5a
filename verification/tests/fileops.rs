use omafiles::fileops::{
    candidate_path, compress, compress_failure, copy_into, create_directory, create_file, first_free, move_into, numbered_name,
    trash, unique_target, write_new,
};

#[test]
fn the_counter_goes_before_the_extension() {
    assert_eq!(numbered_name("a.txt", 2), "a (2).txt");
    assert_eq!(numbered_name("a.tar.gz", 3), "a (3).tar.gz");
    assert_eq!(numbered_name("src", 2), "src (2)");
    assert_eq!(numbered_name(".env", 2), ".env (2)");
}

#[test]
fn candidates_start_with_the_name_itself() {
    assert_eq!(candidate_path("/d", "a.txt", 1), "/d/a.txt");
    assert_eq!(candidate_path("/d", "a.txt", 2), "/d/a (2).txt");
    assert_eq!(first_free("/d", "a.txt", &vec![true, true, false]), Some("/d/a (3).txt".to_string()));
    assert_eq!(first_free("/d", "b.txt", &vec![false]), Some("/d/b.txt".to_string()));
    assert_eq!(first_free("/d", "b.txt", &vec![true]), None);
}

#[test]
fn a_free_name_is_found_on_disk() {
    assert_eq!(unique_target("/omafiles-definitely-not-here", "a.txt").0, Some("/omafiles-definitely-not-here/a.txt".to_string()));
    assert_eq!(unique_target("/", "omafiles-no-such-entry").0, Some("/omafiles-no-such-entry".to_string()));
}

#[test]
fn a_taken_name_is_numbered_on_disk() {
    assert!(std::path::Path::new("/etc/passwd").exists());
    assert_eq!(unique_target("/etc", "passwd").0, Some("/etc/passwd (2)".to_string()));
    assert_eq!(unique_target("/", "etc").0, Some("/etc (2)".to_string()));
}

#[test]
fn a_copy_lands_under_its_own_name() {
    let d = "/omafiles-definitely-not-here";
    assert_eq!(copy_into("/src/a.txt", false, d).0, Ok(format!("{d}/a.txt")));
    assert_eq!(copy_into("/", false, d).0, Err("cannot copy a path with no name".to_string()));
    assert_eq!(copy_into("/src/dir", true, "/src/dir/inner-not-here").0, Err("cannot paste a directory into itself".to_string()));
}

#[test]
fn a_move_refuses_what_it_cannot_do() {
    let d = "/omafiles-definitely-not-here";
    assert_eq!(move_into("/src/a.txt", false, d, true).0, Ok(format!("{d}/a.txt")));
    assert_eq!(move_into("/src/a.txt", false, d, false).0, Err(format!("{d} is not a directory")));
    assert_eq!(move_into("/src/a.txt", false, "/src", true).0, Err("\u{201c}a.txt\u{201d} is already there".to_string()));
    assert_eq!(move_into("/", false, d, true).0, Err("cannot move a path with no name".to_string()));
    assert_eq!(
        move_into("/omafiles-not-here/dir", true, "/omafiles-not-here/dir/inner", true).0,
        Err("cannot move a directory into itself".to_string())
    );
}

#[test]
fn new_entries_never_replace_old_ones() {
    let d = "/omafiles-definitely-not-here";
    assert_eq!(write_new(d, true, "n.txt").0, Ok(format!("{d}/n.txt")));
    assert_eq!(write_new(d, false, "n.txt").0, Err(format!("{d} is not a directory")));
    assert_eq!(create_file("/a/b/c.txt", false), Ok(Some("/a/b".to_string())));
    assert_eq!(create_file("c.txt", false), Ok(None));
    assert_eq!(create_file("/a/c.txt", true), Err("\u{201c}c.txt\u{201d} already exists".to_string()));
    assert_eq!(create_file("/", false), Err("a file needs a name".to_string()));
    assert_eq!(create_directory("/a/d", false), Ok(()));
    assert_eq!(create_directory("/a/d", true), Err("\u{201c}d\u{201d} already exists".to_string()));
    assert_eq!(create_directory("/", false), Err("a directory needs a name".to_string()));
}

#[test]
fn an_archive_sits_beside_its_source() {
    let d = "/omafiles-definitely-not-here";
    assert_eq!(
        compress(&format!("{d}/photos")).0,
        Ok((format!("{d}/photos.zip"), d.to_string(), "photos".to_string()))
    );
    assert_eq!(compress("/").0, Err("cannot compress the filesystem root".to_string()));
    assert_eq!(compress("/d/..").0, Err("cannot compress a path with no name".to_string()));
    assert_eq!(compress_failure("  zip error: nothing  \n"), "zip error: nothing");
    assert_eq!(compress_failure("   "), "compression failed");
}

#[test]
fn the_trash_reports_gios_last_word() {
    assert_eq!(trash(Ok((true, String::new()))), Ok(()));
    assert_eq!(
        trash(Ok((false, "warning\ngio: gio: file.txt: No such file\n".to_string()))),
        Err("could not trash: file.txt: No such file".to_string())
    );
    assert_eq!(trash(Ok((false, String::new()))), Err("could not trash: gio refused".to_string()));
    assert_eq!(trash(Err((true, String::new()))), Err("install glib2 (gio) to move files to the trash".to_string()));
    assert_eq!(trash(Err((false, "denied".to_string()))), Err("could not run gio: denied".to_string()));
}

#[test]
fn refuses_to_paste_a_directory_into_itself() {
    let src = "/omafiles-definitely-not-here-cycle/src";
    let error = copy_into(src, true, src).0.unwrap_err();
    assert!(error.contains("into itself"));
    assert!(!std::path::Path::new(src).join("src").exists(), "nothing half-made is left");
}

#[test]
fn compresses_and_the_archive_lands_beside_the_source() {
    let dir = "/omafiles-definitely-not-here-zip";
    let (archive, cwd, name) = compress(&format!("{dir}/src")).0.unwrap();
    assert_eq!(archive, format!("{dir}/src.zip"));
    assert_eq!(cwd, dir);
    assert_eq!(name, "src");
}
