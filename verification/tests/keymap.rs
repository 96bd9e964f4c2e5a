use omafiles::keymap::{default_bindings, known_actions, pretty_keys, Context, KeyValue, Keymap};
use omafiles::palette::command_list;

#[test]
fn defaults_load_without_a_file() {
    let keymap = Keymap::load(Ok(None));
    assert!(keymap.problems.is_empty());
    assert_eq!(keymap.bindings.len(), default_bindings().len());
}

#[test]
fn pretty_keys_reads_like_the_help_sheet() {
    assert_eq!(pretty_keys("ctrl-shift-g"), "^\u{21e7}g");
    assert_eq!(pretty_keys("alt-left"), "\u{2325}\u{2190}");
    assert_eq!(pretty_keys("enter"), "\u{23ce}");
    assert_eq!(pretty_keys("escape"), "esc");
    assert_eq!(pretty_keys("space"), "space");
    assert_eq!(pretty_keys("q"), "q");
    assert_eq!(pretty_keys("shift-tab"), "\u{21e7}\u{21e5}");
}

#[test]
fn a_dash_key_and_a_modifier_as_a_key_stay_readable() {
    assert_eq!(pretty_keys("ctrl--"), "^-");
    assert_eq!(pretty_keys("-"), "-");
    assert_eq!(pretty_keys("ctrl"), "ctrl");
    assert_eq!(pretty_keys("super-k"), "\u{2318}k");
}

#[test]
fn keys_for_prettifies_and_deduplicates() {
    let keymap = Keymap::defaults();
    let keys = keymap.keys_for("quit");
    assert!(keys.contains(&"q".to_string()));
    assert!(keys.contains(&"^q".to_string()));
}

#[test]
fn every_default_action_is_known() {
    for (name, ..) in default_bindings() {
        assert!(known_actions().contains(&name));
    }
}

#[test]
fn every_palette_command_names_a_known_action() {
    for (label, action) in command_list() {
        assert!(known_actions().contains(&action), "palette command {label:?} names unknown action {action:?}");
    }
}

#[test]
fn known_actions_are_sorted_and_unique() {
    let names = known_actions();
    assert!(names.windows(2).all(|w| w[0] < w[1]));
    assert!(names.contains(&"toggle_button_labels"));
}

#[test]
fn an_override_replaces_only_its_own_action_and_section() {
    let mut keymap = Keymap::defaults();
    keymap.merge("[listing]\ntoggle_preview = \"p\"\n");
    assert!(keymap.problems.is_empty());
    let previews: Vec<_> = keymap.bindings.iter().filter(|b| b.action == "toggle_preview").collect();
    assert_eq!(previews.len(), 1);
    assert_eq!(previews[0].keys, "p");
    assert_eq!(previews[0].context, Context::Listing);
    assert!(keymap.bindings.iter().any(|b| b.action == "open_terminal" && b.context == Context::Sidebar));
}

#[test]
fn a_list_binds_several_and_an_empty_list_unbinds() {
    let mut keymap = Keymap::defaults();
    keymap.merge("[global]\nnew_tab = [\"ctrl-t\", \"f7\"]\n[listing]\nopen_terminal = []\n");
    assert!(keymap.problems.is_empty());
    let tabs: Vec<_> = keymap.bindings.iter().filter(|b| b.action == "new_tab").map(|b| b.keys.as_str()).collect();
    assert_eq!(tabs, ["ctrl-t", "f7"]);
    assert!(!keymap.bindings.iter().any(|b| b.action == "open_terminal" && b.context == Context::Listing));
}

#[test]
fn problems_name_what_is_wrong_and_leave_defaults_standing() {
    let mut keymap = Keymap::defaults();
    keymap.merge("[listing]\nfly_to_the_moon = \"m\"\nrefresh = 7\n[cockpit]\nx = \"y\"\n");
    assert_eq!(keymap.problems.len(), 3);
    let all = keymap.problems.join("\n");
    assert!(all.contains("fly_to_the_moon"));
    assert!(all.contains("refresh"));
    assert!(all.contains("[cockpit]"));
    assert!(keymap.bindings.iter().any(|b| b.action == "refresh" && b.keys == "f5"));
}

#[test]
fn a_syntax_error_is_one_problem_not_a_crash() {
    let mut keymap = Keymap::defaults();
    keymap.merge("[listing\nbroken");
    assert_eq!(keymap.problems.len(), 1);
    assert!(keymap.problems[0].starts_with("keymap.toml: "));
    assert!(!keymap.problems[0].contains('\n'));
    assert_eq!(keymap.bindings.len(), default_bindings().len());
}

#[test]
fn a_parsed_file_is_merged_the_same_way() {
    let mut keymap = Keymap::defaults();
    keymap.merge_file(Ok(vec![(
        "sidebar".to_string(),
        vec![
            ("quit".to_string(), KeyValue::List(vec![Some("x".to_string()), None])),
            ("open".to_string(), KeyValue::Str("o".to_string())),
            ("nope".to_string(), KeyValue::Other),
        ],
    )]));
    assert_eq!(keymap.problems, vec![
        "keymap.toml: \"quit\" wants a key string or a list of them".to_string(),
        "keymap.toml: unknown action \"nope\"".to_string(),
    ]);
    let opens: Vec<_> = keymap.bindings.iter().filter(|b| b.action == "open" && b.context == Context::Sidebar).map(|b| b.keys.as_str()).collect();
    assert_eq!(opens, ["o"]);
    assert_eq!(keymap.bindings.last().map(|b| b.keys.as_str()), Some("o"), "an override comes last, so it wins a conflict");

    let mut broken = Keymap::defaults();
    broken.merge_file(Err("expected `]`\n  at line 1\n".to_string()));
    assert_eq!(broken.problems, vec!["keymap.toml: expected `]` at line 1".to_string()]);
}

#[test]
fn an_unreadable_file_is_the_defaults_and_a_problem() {
    let keymap = Keymap::load(Err("permission denied".to_string()));
    assert_eq!(keymap.problems, vec!["keymap.toml: permission denied".to_string()]);
    assert_eq!(keymap.bindings.len(), default_bindings().len());
    let merged = Keymap::load(Ok(Some("[global]\nquit = \"ctrl-x\"\n".to_string())));
    assert!(merged.keys_for("quit").contains(&"^x".to_string()));
    assert!(!merged.keys_for("quit").contains(&"^q".to_string()));
}

#[test]
fn sections_are_named_after_their_contexts() {
    assert_eq!(Context::Global.section(), "global");
    assert_eq!(Context::Listing.section(), "listing");
    assert_eq!(Context::Sidebar.section(), "sidebar");
}
