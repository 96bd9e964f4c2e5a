use omafiles::entry::{Entry, Metadata};
use omafiles::listing::Listing;
use omafiles::diff::parse_diff;
use omafiles::preview::{Body, ImageFormat, Key, Preview};
use omafiles::presentation::{
    display_path, drop_refusals, expand_tilde, first_visible, hex_rows, image_extension, middle_truncate, preview_facts,
    truncate_for_pane, move_failure, move_report, DragItem, DraggedEntries, MoveReport, PANE_LINES,
};

#[test]
fn middle_truncate_keeps_the_start_and_the_end() {
    assert_eq!(middle_truncate("short", 44), "short");
    let long = "/tmp/some/very/long/path/that/keeps/going/until/it/ends/here";
    let cut = middle_truncate(long, 20);
    assert_eq!(cut.chars().count(), 20);
    assert!(cut.starts_with("/tmp"), "the beginning survives");
    assert!(cut.ends_with("here"), "the end survives");
    assert!(cut.contains('\u{2026}'));
    let accented = "\u{e9}\u{e8}\u{ea}\u{eb}".repeat(20);
    let cut = middle_truncate(&accented, 10);
    assert_eq!(cut.chars().count(), 10);
}

#[test]
fn hex_rows_pad_so_the_ascii_column_lines_up() {
    let rows = hex_rows(b"hello", 16);
    assert_eq!(rows.len(), 1);
    assert!(rows[0].starts_with("00000000  68 65 6c 6c 6f "));
    assert!(rows[0].ends_with("  hello"), "{}", rows[0]);

    let rows = hex_rows(&[0x00, 0x1b, b'A'], 16);
    assert!(rows[0].ends_with("  ..A"), "{}", rows[0]);

    let rows = hex_rows(&[0u8; 40], 16);
    assert_eq!(rows.len(), 3);
    assert!(rows[1].starts_with("00000010"));
    assert!(rows[2].starts_with("00000020"));
}

#[test]
fn narrow_hex_rows_stay_aligned_and_reoffset() {
    let rows = hex_rows(&[0u8; 20], 8);
    assert_eq!(rows.len(), 3);
    assert!(rows[1].starts_with("00000008"), "{}", rows[1]);
    assert!(rows[2].starts_with("00000010"), "{}", rows[2]);

    const ASCII_COLUMN: usize = 8 + 2 + (8 * 3 - 1) + 2;
    for row in &rows {
        assert!(row.len() > ASCII_COLUMN, "{row:?}");
        assert!(!row[ASCII_COLUMN..].starts_with(' ') && row.as_bytes()[ASCII_COLUMN - 1] == b' ', "the ascii column must begin exactly at {ASCII_COLUMN}: {row:?}");
    }
}

#[test]
fn a_hex_row_matches_a_formatted_one() {
    let bytes: Vec<u8> = (0u8..=40).collect();
    let rows = hex_rows(&bytes, 16);
    for (n, (row, chunk)) in rows.iter().zip(bytes.chunks(16)).enumerate() {
        let hex: Vec<String> = chunk.iter().map(|b| format!("{b:02x}")).collect();
        let ascii: String = chunk.iter().map(|b| if b.is_ascii_graphic() || *b == b' ' { *b as char } else { '.' }).collect();
        let offset = n * 16;
        assert_eq!(row, &format!("{:08x}  {:<47}  {ascii}", offset, hex.join(" ")));
    }
    assert!(hex_rows(&[], 16).is_empty());
}

#[test]
fn a_tilde_expands_to_home() {
    assert_eq!(expand_tilde("~/notes", "/home/a"), "/home/a/notes");
    assert_eq!(expand_tilde("~", "/home/a"), "/home/a");
    assert_eq!(expand_tilde("/etc/~x", "/home/a"), "/etc/~x");
}

#[test]
fn paths_under_home_are_said_with_a_tilde() {
    assert_eq!(display_path("/home/a", "/home/a"), "~");
    assert_eq!(display_path("/home/a/Documents/x", "/home/a"), "~/Documents/x");
    assert_eq!(display_path("/home/ab", "/home/a"), "/home/ab");
    assert_eq!(display_path("/etc", "/home/a"), "/etc");
}

#[test]
fn the_first_visible_row_skips_hidden_ones() {
    let hidden = Entry::from_path("/d/.a".to_string(), Some(Metadata { is_dir: false, len: 0, modified: None }), false);
    let shown = Entry::from_path("/d/b".to_string(), Some(Metadata { is_dir: false, len: 0, modified: None }), false);
    let listing = Listing::read("/d".to_string(), Ok(vec![hidden, shown]));
    assert_eq!(first_visible(&listing, false), Some(1));
    assert_eq!(first_visible(&listing, true), Some(0));
    assert_eq!(first_visible(&Listing::empty("/d".to_string()), true), None);
}

fn item(path: &str, is_dir: bool) -> DragItem {
    DragItem { path: path.to_string(), name: path.rsplit('/').next().unwrap().to_string(), is_dir }
}

#[test]
fn a_drag_is_named_by_its_load() {
    assert_eq!(DraggedEntries { items: vec![item("/a/x.txt", false)] }.label(), "\u{201c}x.txt\u{201d}");
    assert_eq!(DraggedEntries { items: vec![item("/a/x", false), item("/a/y", false)] }.label(), "2 items");
}

#[test]
fn every_reason_a_drop_is_refused_is_named() {
    let items = vec![item("/a/gone.txt", false), item("/dest/here.txt", false), item("/dest", true), item("/b/fine.txt", false)];
    let present = vec![false, true, true, true];
    let reasons = drop_refusals(&items, "/dest/inner", true, &present, "/home/u");
    assert_eq!(reasons, vec![
        "\u{201c}gone.txt\u{201d} is no longer there".to_string(),
        "\u{201c}dest\u{201d} cannot be moved into itself".to_string(),
    ]);
    let one = vec![item("/dest/here.txt", false)];
    let reasons = drop_refusals(&one, "/dest", false, &vec![true], "/dest");
    assert_eq!(reasons, vec!["~ is not a directory".to_string(), "\u{201c}here.txt\u{201d} is already there".to_string()]);
}

fn preview_of(body: Body, size: Option<u64>, mtime: Option<i128>, is_symlink: bool) -> Preview {
    Preview { key: Key { path: "/d/x".to_string(), mtime }, name: "x".to_string(), size, is_symlink, body }
}

fn facts(p: &Preview, elapsed: Option<u64>) -> Vec<(String, String)> {
    preview_facts(p, elapsed)
}

fn pairs(v: &[(&str, &str)]) -> Vec<(String, String)> {
    v.iter().map(|(k, x)| (k.to_string(), x.to_string())).collect()
}

#[test]
fn the_fact_table_states_kind_size_and_age_first() {
    let p = preview_of(Body::Directory { entries: Some(3) }, None, Some(1), true);
    assert_eq!(facts(&p, Some(7200)), pairs(&[("kind", "directory"), ("link", "symlink"), ("modified", "2h"), ("entries", "3")]));
    let p = preview_of(Body::Unreadable("x".to_string()), Some(1536), None, false);
    assert_eq!(facts(&p, None), pairs(&[("kind", "unreadable"), ("size", "1.5 K")]));
}

#[test]
fn a_cut_text_says_first_rather_than_claim_a_count() {
    let cut = Body::Text { text: String::new(), language: Some("rust"), lines: 4000, truncated: true };
    assert_eq!(facts(&preview_of(cut, None, None, false), None), pairs(&[("kind", "rust"), ("lines", "first 4000")]));
    let whole = Body::Text { text: String::new(), language: None, lines: 12, truncated: false };
    assert_eq!(facts(&preview_of(whole, None, None, false), None), pairs(&[("kind", "text"), ("lines", "12")]));
}

#[test]
fn bodies_add_their_own_facts() {
    let image = Body::Image { format: ImageFormat::Png, bytes: vec![], dimensions: Some((640, 480)) };
    assert_eq!(facts(&preview_of(image, None, None, false), None), pairs(&[("kind", "image"), ("dimensions", "640 \u{d7} 480")]));
    let diff = parse_diff("@@ -1,1 +1,2 @@\n-a\n+b\n+c\n", 100);
    assert_eq!(
        facts(&preview_of(Body::Diff(diff), None, None, false), None),
        pairs(&[("kind", "diff"), ("hunks", "1"), ("changed", "+2 \u{2212}1")])
    );
    let video = Body::Video { poster: None, poster_dimensions: None, facts: pairs(&[("duration", "0:03")]) };
    assert_eq!(facts(&preview_of(video, None, None, false), None), pairs(&[("kind", "video"), ("duration", "0:03")]));
    let big = Body::TooLarge { size: 11_000_000, limit: 10_485_760 };
    assert_eq!(facts(&preview_of(big, None, None, false), None), pairs(&[("kind", "too large"), ("limit", "10 M")]));
}

#[test]
fn pictures_are_written_with_their_own_extension() {
    assert_eq!(image_extension(ImageFormat::Jpeg), "jpg");
    assert_eq!(image_extension(ImageFormat::Png), "png");
    assert_eq!(image_extension(ImageFormat::Tiff), "tiff");
    assert_eq!(image_extension(ImageFormat::Svg), "svg");
}

#[test]
fn the_pane_shows_the_head_of_a_markdown_file() {
    assert_eq!(truncate_for_pane("# T\n\nbody\n"), "# T\n\nbody");
    let long = (0..PANE_LINES + 5).map(|i| i.to_string()).collect::<Vec<_>>().join("\n");
    let head = truncate_for_pane(&long);
    assert_eq!(head.lines().count(), PANE_LINES);
    assert!(head.ends_with(&(PANE_LINES - 1).to_string()));
}

fn carried(names: &[&str]) -> DraggedEntries {
    DraggedEntries {
        items: names.iter().map(|n| DragItem { path: format!("/s/{n}"), name: n.to_string(), is_dir: false }).collect(),
    }
}

#[test]
fn a_move_says_what_moved_or_how_much_did_not() {
    assert_eq!(move_report(&carried(&["a.txt"]), vec![], "~/dest"), MoveReport::Moved("moved \u{201c}a.txt\u{201d} into ~/dest".to_string()));
    assert_eq!(move_report(&carried(&["a", "b", "c"]), vec![], "/d"), MoveReport::Moved("moved 3 items into /d".to_string()));
    let why = move_failure("b", "is already there");
    assert_eq!(why, "\u{201c}b\u{201d}: is already there");
    assert_eq!(
        move_report(&carried(&["a", "b", "c"]), vec![why.clone()], "/d"),
        MoveReport::Refused { subtitle: "2 of 3 moved into /d".to_string(), reasons: vec![why.clone()] }
    );
    assert_eq!(
        move_report(&carried(&["b"]), vec![why.clone()], "/d"),
        MoveReport::Refused { subtitle: "nothing was moved into /d".to_string(), reasons: vec![why] }
    );
}
