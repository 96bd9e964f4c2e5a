use omafiles::pathpick::{
    completed_field, completes, completion_base, confirm_path, create_row, probe_target, suggestions, Choice, Purpose,
    MAX_SUGGESTIONS,
};

#[test]
fn a_directory_offers_its_children_and_anything_else_its_parent() {
    assert_eq!(completion_base("/usr/", false), ("/usr/".to_string(), String::new()));
    assert_eq!(completion_base("/usr", true), ("/usr".to_string(), String::new()));
    assert_eq!(completion_base("/usr/sh", false), ("/usr".to_string(), "sh".to_string()));
    assert_eq!(completion_base("sh", false), (String::new(), "sh".to_string()));
    assert_eq!(completion_base("", false), ("/".to_string(), String::new()));
}

#[test]
fn completion_ignores_case_and_hides_dot_directories_until_a_dot() {
    assert!(completes("share", "sh"));
    assert!(completes("Share", "sH"));
    assert!(!completes("local", "sh"));
    assert!(!completes(".cache", ""));
    assert!(completes(".cache", ".c"));
    assert!(completes("anything", ""));
}

fn child(path: &str, is_dir: bool) -> (String, bool) {
    (path.to_string(), is_dir)
}

#[test]
fn suggestions_are_directories_in_natural_order_and_few() {
    let children = vec![
        child("/u/share10", true),
        child("/u/share2", true),
        child("/u/shell.txt", false),
        child("/u/.shadow", true),
        child("/u/Shared", true),
    ];
    assert_eq!(suggestions(&children, "sh"), vec!["/u/share2", "/u/share10", "/u/Shared"]);
    let many: Vec<(String, bool)> = (0..15).map(|i| child(&format!("/u/d{i}"), true)).collect();
    let offered = suggestions(&many, "d");
    assert_eq!(offered.len(), MAX_SUGGESTIONS);
    assert_eq!(offered[0], "/u/d0");
    assert_eq!(offered[2], "/u/d2");
}

#[test]
fn the_create_row_offers_what_is_not_there() {
    assert_eq!(create_row("/omafiles-definitely-not-here/new/", true).0, Some("/omafiles-definitely-not-here/new".to_string()));
    assert_eq!(create_row("/omafiles-definitely-not-here/new", false).0, None);
    assert_eq!(create_row("///", true).0, None);
    assert_eq!(create_row("/", true).0, None);
    assert_eq!(create_row("/etc/", true).0, None);
}

#[test]
fn the_file_maker_completes_makes_or_asks_for_a_name() {
    let found = vec!["/h/docs".to_string()];
    let none: Vec<String> = vec![];
    let maker = Purpose::CreateFile;
    assert_eq!(confirm_path(&maker, Some(0), &found, &None, "/h/d", "/h", false), Choice::Complete("/h/docs".to_string()));
    assert_eq!(probe_target(&maker, " ~/notes/today.md ", "/h"), "/h/notes/today.md");
    assert_eq!(confirm_path(&maker, None, &none, &None, "~/notes/today.md", "/h", false), Choice::MakeFile("/h/notes/today.md".to_string()));
    assert_eq!(confirm_path(&maker, None, &none, &None, "~/new/ ", "/h", false), Choice::MakeDirectory("/h/new".to_string()));
    assert_eq!(confirm_path(&maker, None, &none, &None, "/h/docs", "/h", true), Choice::AskName("file"));
    assert_eq!(confirm_path(&maker, None, &none, &None, "/", "/h", true), Choice::AskName("directory"));
}

#[test]
fn going_and_moving_take_the_row_the_text_or_the_first_completion() {
    let found = vec!["/h/docs".to_string(), "/h/downloads".to_string()];
    let none: Vec<String> = vec![];
    let go = Purpose::GoTo;
    let mv = Purpose::MoveInto { source: "/h/a.txt".to_string(), name: "a.txt".to_string() };
    let create = Some("/h/new".to_string());
    assert_eq!(confirm_path(&go, Some(1), &found, &create, "/h/d", "/h", false), Choice::Existing("/h/downloads".to_string()));
    assert_eq!(confirm_path(&mv, Some(2), &found, &create, "/h/new", "/h", false), Choice::Create("/h/new".to_string()));
    assert_eq!(confirm_path(&mv, Some(2), &found, &None, "/h/new", "/h", false), Choice::Nothing);
    assert_eq!(confirm_path(&go, None, &found, &None, "~/music", "/h", true), Choice::Existing("/h/music".to_string()));
    assert_eq!(confirm_path(&go, None, &found, &None, "/h/d", "/h", false), Choice::Existing("/h/docs".to_string()));
    assert_eq!(
        confirm_path(&mv, None, &none, &None, "/h/nowhere", "/h", false),
        Choice::Refuse("no such directory \u{2014} pick \u{201c}create\u{201d} to make it".to_string())
    );
    assert_eq!(
        confirm_path(&go, None, &none, &None, "/omafiles-definitely-not-here/deep", "/h", false),
        Choice::Existing("/".to_string())
    );
}

#[test]
fn a_completed_directory_keeps_one_trailing_slash() {
    assert_eq!(completed_field("/h/docs"), "/h/docs/");
    assert_eq!(completed_field("/h/docs/"), "/h/docs/");
}
