use omafiles::places::{label_for, pins_path, system_candidates, Origin, PinEntry, PinFile, PinState, Places};

const HOME: &str = "/t/home";
const CONFIG: &str = "/t/home/.config";

const USER_DIRS: &str = "# a comment\n\
XDG_DESKTOP_DIR=\"$HOME/\"\n\
XDG_DOWNLOAD_DIR=\"$HOME/Downloads\"\n\
XDG_DOCUMENTS_DIR=\"$HOME/Documents\"\n\
XDG_PICTURES_DIR=\"$HOME/Pictures\"\n\
XDG_MUSIC_DIR=\"$HOME/Music\"\n\
XDG_PROJECTS_DIR=\"$HOME/Projects\"\n";

/// The directories the fixture home has on disk.
fn on_disk() -> Vec<String> {
    ["", "/.config", "/Downloads", "/Documents", "/Pictures", "/Projects"].iter().map(|d| format!("{HOME}{d}")).collect()
}

fn fixture() -> Places {
    fixture_with(PinFile::default())
}

fn fixture_with(pins: PinFile) -> Places {
    let candidates = system_candidates(HOME, CONFIG, Some(USER_DIRS));
    let disk = on_disk();
    let present: Vec<bool> = candidates.iter().map(|(p, _)| disk.iter().any(|d| d.trim_end_matches('/') == p.trim_end_matches('/'))).collect();
    Places::load(HOME, &candidates, &present, pins)
}

fn is_dir(path: &str) -> bool {
    on_disk().iter().any(|d| d == path)
}

#[test]
fn skips_xdg_dirs_that_are_just_home_again() {
    let places = fixture();
    assert_eq!(places.system().iter().filter(|p| p.path.trim_end_matches('/') == HOME).count(), 1, "Home must appear exactly once");
}

#[test]
fn skips_xdg_dirs_that_do_not_exist() {
    let places = fixture();
    assert!(!places.system().iter().any(|p| p.label == "Music"));
}

#[test]
fn keeps_non_standard_xdg_entries() {
    let places = fixture();
    assert!(places.system().iter().any(|p| p.label == "Projects"), "XDG_PROJECTS_DIR is non-standard but real");
}

#[test]
fn orders_well_known_directories_deliberately() {
    let places = fixture();
    let labels: Vec<&str> = places.system().iter().map(|p| p.label.as_str()).collect();
    assert_eq!(labels[0], "Home");
    let downloads = labels.iter().position(|l| *l == "Downloads").unwrap();
    let documents = labels.iter().position(|l| *l == "Documents").unwrap();
    let projects = labels.iter().position(|l| *l == "Projects").unwrap();
    assert!(downloads < documents, "declared order, not alphabetical");
    assert!(documents < projects, "non-standard entries come after known ones");
    assert_eq!(labels.last().copied(), Some(".config"));
}

#[test]
fn labels_come_from_the_directory_so_localisation_survives() {
    let text = "XDG_DOWNLOAD_DIR=\"$HOME/T\u{e9}l\u{e9}chargements\"\n";
    let candidates = system_candidates(HOME, CONFIG, Some(text));
    let present = vec![true; candidates.len()];
    let places = Places::load(HOME, &candidates, &present, PinFile::default());
    assert!(places.system().iter().any(|p| p.label == "T\u{e9}l\u{e9}chargements"));
}

#[test]
fn handles_absolute_paths_in_user_dirs() {
    let candidates = system_candidates(HOME, CONFIG, Some("XDG_VIDEOS_DIR=\"/mnt/media\"\n"));
    assert_eq!(candidates[0], ("/mnt/media".to_string(), Origin::Xdg));
    let present = vec![true; candidates.len()];
    let places = Places::load(HOME, &candidates, &present, PinFile::default());
    assert!(places.system().iter().any(|p| p.path == "/mnt/media"));
}

#[test]
fn pins_round_trip_through_disk() {
    let mut places = fixture();
    let downloads = format!("{HOME}/Downloads");
    let projects = format!("{HOME}/Projects");
    let nope = format!("{HOME}/nope");
    assert!(places.pin(&downloads, is_dir(&downloads)));
    assert!(places.pin(&projects, is_dir(&projects)));
    assert!(!places.pin(&downloads, is_dir(&downloads)), "no duplicate pins");
    assert!(!places.pin(&nope, is_dir(&nope)), "cannot pin a missing directory");
    let saved = places.save();

    let reloaded = fixture_with(saved);
    let labels: Vec<&str> = reloaded.pinned().iter().map(|p| p.label.as_str()).collect();
    assert_eq!(labels, ["Downloads", "Projects"]);
}

#[test]
fn reordering_is_clamped_not_wrapping() {
    let mut places = fixture();
    for d in ["Downloads", "Documents", "Projects"] {
        let p = format!("{HOME}/{d}");
        places.pin(&p, is_dir(&p));
    }
    assert_eq!(places.move_pin(2, -1), Some(1));
    let labels: Vec<&str> = places.pinned().iter().map(|p| p.label.as_str()).collect();
    assert_eq!(labels, ["Downloads", "Projects", "Documents"]);
    assert_eq!(places.move_pin(0, -1), None);
    assert_eq!(places.move_pin(2, 1), None);
    assert_eq!(places.move_pin(9, 1), None);
    assert_eq!(places.move_pin(0, isize::MAX), Some(2), "a big jump lands at the bottom");
}

#[test]
fn unpinning_leaves_the_rest_in_order() {
    let mut places = fixture();
    for d in ["Downloads", "Documents"] {
        let p = format!("{HOME}/{d}");
        places.pin(&p, is_dir(&p));
    }
    assert!(places.unpin(0));
    assert!(!places.unpin(5), "out of range must not panic");
    assert_eq!(places.pinned().len(), 1);
    assert_eq!(places.pinned()[0].label, "Documents");
}

#[test]
fn only_a_renamed_label_is_persisted() {
    let mut places = fixture();
    let downloads = format!("{HOME}/Downloads");
    places.pin(&downloads, true);
    let saved = places.save();
    assert_eq!(saved.version, 1);
    assert_eq!(saved.pins[0].label, None, "a label matching the directory name is redundant on disk");

    let renamed = PinFile { version: 1, pins: vec![PinEntry { path: downloads.clone(), label: Some("Grabs".to_string()) }] };
    let reloaded = fixture_with(renamed);
    assert_eq!(reloaded.pinned()[0].label, "Grabs");
    assert_eq!(reloaded.save().pins[0].label, Some("Grabs".to_string()));
}

#[test]
fn pinned_index_maps_from_the_combined_list() {
    let mut places = fixture();
    let downloads = format!("{HOME}/Downloads");
    places.pin(&downloads, is_dir(&downloads));

    let system = places.system().len();
    assert_eq!(places.pinned_index(system), Some(0));
    assert_eq!(places.pinned_index(system.saturating_sub(1)), None);
    assert_eq!(places.pinned_index(system + 9), None);
    assert_eq!(places.len(), system + 1);
    assert_eq!(places.get(system).map(|p| p.label.as_str()), Some("Downloads"));
    assert_eq!(places.all().len(), places.len());
}

#[test]
fn the_current_directory_matches_exactly_not_by_ancestry() {
    let places = fixture();
    assert_eq!(places.index_of_path(HOME), Some(0));
    assert_eq!(places.index_of_path(&format!("{HOME}/Downloads/deeper")), None, "a descendant must not light up its ancestor");
}

#[test]
fn the_pin_file_lives_under_the_config_directory() {
    assert_eq!(pins_path("/t/home/.config"), "/t/home/.config/omafiles/places.toml");
    assert_eq!(label_for("/t/home/Music"), "Music");
    assert_eq!(label_for("/"), "/");
    assert!(Origin::Pinned.is_editable());
    assert!(!Origin::Home.is_editable());
    assert!(Places::default().is_empty());
}

#[test]
fn user_dirs_are_read_like_the_shell_would() {
    let text = "  # comment\nXDG_DOCUMENTS_DIR = \"\"$HOME//Docs\"\"\nNOT_XDG=1\nXDG_DIR=\"/x\"\nXDG__DIR=\"/y\"\nXDG_BOOKS_DIR=/b\n";
    let candidates = system_candidates(HOME, CONFIG, Some(text));
    let paths: Vec<&str> = candidates.iter().map(|(p, _)| p.as_str()).collect();
    assert_eq!(paths, ["/t/home/Docs", "/b", CONFIG]);
    assert_eq!(candidates.last().unwrap().1, Origin::Config);
    assert_eq!(system_candidates(HOME, CONFIG, None).len(), 1);
}

#[test]
fn the_pin_button_pins_unpins_and_leaves_system_places_alone() {
    let mut places = fixture();
    let system = places.system().len();
    let projects = format!("{HOME}/Projects/omafiles");
    assert_eq!(places.pin_state(HOME), PinState::System);
    assert_eq!(places.toggle_pin(HOME, true, 0), None);
    assert_eq!(places.pin_state(&projects), PinState::Pinnable);
    assert_eq!(places.toggle_pin(&projects, true, 0), Some(system));
    assert_eq!(places.pin_state(&projects), PinState::Pinned);
    assert_eq!(places.toggle_pin(&projects, true, system + 5), Some(system - 1), "the cursor stays inside the list");
    assert_eq!(places.pin_state(&projects), PinState::Pinnable);
    assert_eq!(places.toggle_pin("/t/not-a-dir.txt", false, 0), None);
    assert_eq!(places.pinned().len(), 0);
}
