use omafiles::git::{blob_at_head, relative_path, State, Status};
use omafiles::navigation::Navigation;
use omafiles::path::{canonical, same_place, starts_with_path};
use omafiles::places::{system_candidates, PinFile, Places};

#[test]
fn a_path_is_compared_by_its_components() {
    assert_eq!(canonical("/a//b/./c/"), "/a/b/c");
    assert_eq!(canonical("./a/./b"), "./a/b");
    assert_eq!(canonical("a/."), "a");
    assert_eq!(canonical("//"), "/");
    assert_eq!(canonical(""), "");
    assert!(same_place("/a/b", "/a//b/"));
    assert!(same_place("/a/./b", "/a/b"));
    assert!(!same_place("/a/b", "a/b"));
    assert!(!same_place("/a/b", "/a/b/.."));
    assert!(starts_with_path("/r//a", "/r"));
    assert!(starts_with_path("/r/./a", "/r/"));
    assert!(!starts_with_path("/ra", "/r"));
}

#[test]
fn the_head_path_is_relative_to_the_root_by_components() {
    assert_eq!(blob_at_head("/r", "/r//a"), Some("HEAD:a".to_string()));
    assert_eq!(blob_at_head("/r", "/r/./a/b"), Some("HEAD:a/b".to_string()));
    assert_eq!(relative_path("/r", "/elsewhere"), None);
    assert_eq!(blob_at_head("/r", "/r/a//b/"), Some("HEAD:a//b".to_string()), "the inside is kept as written");
    assert_eq!(relative_path("/r", "/r/"), Some(String::new()));
    assert_eq!(relative_path("/", "/x/./y"), Some("x/./y".to_string()));
    assert_eq!(relative_path("", "./a/"), Some("./a".to_string()));
    assert_eq!(relative_path("", "/"), Some("/".to_string()));
    assert_eq!(relative_path("", "./"), Some(".".to_string()));
    assert_eq!(relative_path("", "a/."), Some("a".to_string()));
    assert_eq!(relative_path("./r", "./r/./a"), Some("a".to_string()));
}

#[test]
fn going_to_the_same_directory_written_otherwise_is_a_no_op() {
    let mut n = Navigation::new("/a/b".to_string());
    n.go("/a/b/".to_string(), Some("x"));
    n.go("/a//./b".to_string(), Some("x"));
    assert!(!n.can_go_back());
    n.go("/a".to_string(), None);
    assert!(n.can_go_back());
}

#[test]
fn a_place_is_found_and_pinned_by_its_components() {
    let home = "/t/home";
    let candidates = system_candidates(home, "/t/home/.config", None);
    let present: Vec<bool> = candidates.iter().map(|_| true).collect();
    let mut places = Places::load(home, &candidates, &present, PinFile::default());
    assert_eq!(places.index_of_path("/t//home/"), Some(0));
    assert!(places.pin("/x/y", true));
    assert!(!places.pin("/x//y", true), "the same directory is not pinned twice");
    assert_eq!(places.index_of_path("/x//y"), places.index_of_path("/x/y"));
    assert!(places.index_of_path("/x/y").is_some());
}

#[test]
fn the_status_of_a_path_does_not_depend_on_how_it_is_written() {
    let mut status = Status::default();
    status.insert("/r//a/./b.txt".to_string(), State::Modified, "/r/");
    assert_eq!(status.of("/r/a/b.txt"), Some(State::Modified));
    assert_eq!(status.of("/r/a/"), Some(State::Modified));
    assert_eq!(status.of("/r"), Some(State::Modified));
    assert_eq!(status.of("/"), None);
}

#[test]
fn the_cursor_is_remembered_for_a_directory_however_written() {
    let mut n = Navigation::new("/a/b".to_string());
    n.go("/c".to_string(), Some("x"));
    n.go("/a//b/".to_string(), Some("y"));
    assert_eq!(n.remembered_cursor(), Some("x"));
}
