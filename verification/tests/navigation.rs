use omafiles::navigation::Navigation;

fn nav(path: &str) -> Navigation {
    Navigation::new(path.to_string())
}

#[test]
fn going_up_puts_the_cursor_on_the_directory_we_left() {
    let mut n = nav("/home/alois/Documents/Github");
    assert!(n.go_up(Some("omafiles")));
    assert_eq!(n.current(), "/home/alois/Documents");
    assert_eq!(n.remembered_cursor(), Some("Github"), "cursor must land on the child we came out of");
}

#[test]
fn back_and_forward_behave_like_a_browser() {
    let mut n = nav("/a");
    n.go("/b".into(), None);
    n.go("/c".into(), None);
    assert_eq!(n.current(), "/c");

    assert!(n.go_back(None));
    assert_eq!(n.current(), "/b");
    assert!(n.go_forward(None));
    assert_eq!(n.current(), "/c");

    assert!(n.go_back(None));
    n.go("/d".into(), None);
    assert!(!n.can_go_forward());
}

#[test]
fn refuses_to_go_above_the_root_or_back_from_the_start() {
    let mut n = nav("/");
    assert!(!n.go_up(None));
    assert_eq!(n.current(), "/");
    assert!(!n.go_back(None));
    assert!(!n.go_forward(None));
}

#[test]
fn navigating_to_where_we_already_are_is_a_no_op() {
    let mut n = nav("/a");
    n.go("/a".into(), Some("x"));
    assert!(!n.can_go_back(), "must not push a duplicate history entry");
}

#[test]
fn cursor_memory_is_per_directory_and_survives_a_round_trip() {
    let mut n = nav("/a");
    n.go("/b".into(), Some("file-in-a"));
    assert_eq!(n.remembered_cursor(), None, "never been to /b");

    n.go_back(Some("file-in-b"));
    assert_eq!(n.remembered_cursor(), Some("file-in-a"));

    n.go_forward(None);
    assert_eq!(n.remembered_cursor(), Some("file-in-b"));
}

#[test]
fn cursor_memory_is_bounded() {
    let mut n = Navigation::with_memory_limit("/start".to_string(), 4);
    for i in 0..50 {
        n.go(format!("/dir{i}"), Some("something"));
    }
    assert!(n.remembered_count() <= 4, "unbounded memory in a long session: {}", n.remembered_count());
}

#[test]
fn landing_on_a_name_overrides_the_memory_here() {
    let mut n = nav("/a");
    n.land_on("fresh.txt");
    assert_eq!(n.remembered_cursor(), Some("fresh.txt"));
    n.go("/b".into(), None);
    n.go_back(None);
    assert_eq!(n.remembered_cursor(), Some("fresh.txt"));
}

#[test]
fn going_up_from_a_top_level_directory_reaches_the_root() {
    let mut n = nav("/usr");
    assert!(n.go_up(None));
    assert_eq!(n.current(), "/");
    assert_eq!(n.remembered_cursor(), Some("usr"));
    assert!(n.can_go_back());
}

#[test]
fn breadcrumb_abbreviates_home() {
    let home = Some("/home/alois");
    let n = Navigation::new("/home/alois/Documents/Github".to_string());
    assert_eq!(n.breadcrumb(home), ["~", "Documents", "Github"]);
    let n = Navigation::new("/usr/share/omarchy".to_string());
    assert_eq!(n.breadcrumb(home), ["/", "usr", "share", "omarchy"]);
    assert_eq!(n.breadcrumb(None), ["/", "usr", "share", "omarchy"]);
    let n = Navigation::new("/home/alois".to_string());
    assert_eq!(n.breadcrumb(home), ["~"]);
    let n = Navigation::new("/".to_string());
    assert_eq!(n.breadcrumb(home), ["/"]);
    let n = Navigation::new("/home/aloisx".to_string());
    assert_eq!(n.breadcrumb(home), ["/", "home", "aloisx"], "a prefix of characters is not a parent");
}
