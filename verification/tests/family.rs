use omafiles::entry::{Entry, Kind};
use omafiles::family::{Family, Hue};

fn file(name: &str) -> Family {
    Family::of_file(name)
}

#[test]
fn sorts_by_extension_case_insensitively() {
    assert_eq!(file("photo.JPG"), Family::Image);
    assert_eq!(file("clip.mkv"), Family::Video);
    assert_eq!(file("song.flac"), Family::Audio);
    assert_eq!(file("site.tar.gz"), Family::Archive);
    assert_eq!(file("main.rs"), Family::Code);
    assert_eq!(file("notes.txt"), Family::Text);
    assert_eq!(file("paper.pdf"), Family::Pdf);
    assert_eq!(file("letter.docx"), Family::Document);
    assert_eq!(file("books.xlsx"), Family::Spreadsheet);
    assert_eq!(file("talk.pptx"), Family::Slides);
    assert_eq!(file("mystery.xyz"), Family::Other);
    assert_eq!(file("README"), Family::Other);
}

#[test]
fn a_dotfile_is_read_by_its_name() {
    assert_eq!(file(".gitignore"), Family::Text);
}

#[test]
fn the_entry_kind_wins_over_the_name() {
    let mut entry = Entry {
        path: "/tmp/archive.zip".to_string(),
        name: "archive.zip".into(),
        kind: Kind::Directory,
        size: None,
        modified: None,
        is_symlink: false,
    };
    assert_eq!(Family::of(&entry), Family::Directory);
    entry.kind = Kind::Unresolved;
    assert_eq!(Family::of(&entry), Family::Broken);
    entry.kind = Kind::File;
    assert_eq!(Family::of(&entry), Family::Archive);
}

#[test]
fn every_family_has_its_own_glyph() {
    assert_eq!(Family::Directory.glyph(), "\u{f07b}");
    assert_eq!(Family::Other.glyph(), "\u{f15b}");
    assert_ne!(Family::Image.glyph(), Family::Video.glyph());
}

#[test]
fn a_path_is_read_by_its_last_component() {
    assert_eq!(file("/home/x/shot.PNG"), Family::Image);
    assert_eq!(file("/home/x.d/README"), Family::Other);
    assert_eq!(file("/home/x/.bashrc"), Family::Other);
}

#[test]
fn plain_files_wear_no_hue_and_the_rest_do() {
    assert_eq!(Family::Text.hue(), None);
    assert_eq!(Family::Other.hue(), None);
    for family in [Family::Directory, Family::Broken, Family::Image, Family::Archive, Family::Code, Family::Pdf] {
        assert!(family.hue().is_some(), "{family:?}");
    }
    assert_eq!(Family::Video.hue(), Some(Hue::Magenta), "pictures and video share a hue");
    assert_eq!(Family::Slides.hue(), Some(Hue::Orange));
}
