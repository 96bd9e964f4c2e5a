use omafiles::config::Config;
use omafiles::palette::{command_list, filter_commands};

#[test]
fn the_palette_filters_by_label_case_aside() {
    let list = command_list();
    let found = filter_commands("TAB");
    let labels: Vec<&str> = found.iter().map(|&i| list[i].0).collect();
    assert_eq!(labels, ["New tab", "Close tab", "Next tab", "Previous tab", "Move tab to next workspace"]);
    assert_eq!(filter_commands("").len(), list.len());
    assert!(filter_commands("no such command").is_empty());
}

#[test]
fn settings_default_to_glyphs_only() {
    assert!(!Config::default().button_labels);
}
