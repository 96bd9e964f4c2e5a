use omafiles::diff::parse_diff;
use omafiles::git::LineKind;
use omafiles::highlight::{clip_to_lines, diff_language, diff_rows, with_diff, DiffRow, Side};
use omafiles::preview::{Body, Key, Preview};

/// A colour, or none: what the renderer's style would carry.
type Style = Option<u32>;

fn styles(n: usize) -> Vec<((usize, usize), Style)> {
    (0..n).map(|i| ((i * 4, i * 4 + 3), None)).collect()
}

#[test]
fn clipping_keeps_the_highlights_inside_the_string() {
    let text = "aaa\nbbb\nccc\nddd\n";
    let (clipped, highlights) = clip_to_lines(text, &styles(4), 2);
    assert_eq!(clipped, "aaa\nbbb");
    assert!(highlights.iter().all(|(r, _)| r.1 <= clipped.len()), "{highlights:?}");
    assert!(!highlights.is_empty(), "the surviving lines keep their colour");
}

#[test]
fn clipping_a_file_shorter_than_the_limit_changes_nothing() {
    let text = "one\ntwo";
    let (clipped, highlights) = clip_to_lines(text, &styles(2), 100);
    assert_eq!(clipped, text);
    assert_eq!(highlights.len(), 2);
}

#[test]
fn clipping_truncates_a_range_that_straddles_the_cut() {
    let text = "aa\nbb\ncc\n";
    let straddling: Vec<((usize, usize), Style)> = vec![((0, 8), None)];
    let (clipped, highlights) = clip_to_lines(text, &straddling, 2);
    assert_eq!(clipped, "aa\nbb");
    assert_eq!(highlights[0].0, (0, 5));
}

#[test]
fn clipping_counts_bytes_for_ranges_and_characters_for_text() {
    let text = "é\nb\nc";
    let (clipped, highlights) = clip_to_lines(text, &vec![((0, 2), Some(1)), ((3, 4), Some(2)), ((5, 6), Some(3))], 2);
    assert_eq!(clipped, "é\nb");
    assert_eq!(highlights, vec![((0, 2), Some(1)), ((3, 4), Some(2))]);
}

/// What a Rust highlighter gives `fn main() {\n    let x = "hi";\n}\n`, ordered.
fn rust_colours() -> Vec<((usize, usize), Style)> {
    vec![((0, 2), Some(1)), ((3, 7), Some(2)), ((16, 19), Some(1)), ((20, 21), None), ((24, 28), Some(3))]
}

#[test]
fn a_diff_row_borrows_its_line_from_the_whole_file() {
    let source = "fn main() {\n    let x = \"hi\";\n}\n";
    let side = Side::new(source, rust_colours());
    let line = side.line(2, "    let x = \"hi\";");
    assert!(!line.is_empty(), "the middle line must carry colours");
    assert!(line.iter().all(|(range, _)| range.1 <= 17), "{line:?}");
    assert!(line.iter().any(|(_, style)| style.is_some()));
    assert_eq!(line, vec![((4, 7), Some(1)), ((8, 9), None), ((12, 16), Some(3))]);
}

#[test]
fn a_line_that_no_longer_matches_the_file_is_left_plain() {
    let side = Side::new("fn main() {\n    let x = 1;\n}\n", vec![((0, 2), Some(1)), ((16, 19), Some(1))]);
    assert!(side.line(2, "something else entirely").is_empty());
    assert!(side.line(99, "past the end").is_empty());
    assert!(side.line(0, "there is no line zero").is_empty());
    assert_eq!(side.line(1, "fn main() {"), vec![((0, 2), Some(1))]);
}

#[test]
fn a_range_spanning_lines_is_cut_to_each() {
    let side = Side::new("/* a\nb */ c", vec![((0, 9), Some(7))]);
    assert_eq!(side.line(1, "/* a"), vec![((0, 4), Some(7))]);
    assert_eq!(side.line(2, "b */ c"), vec![((0, 4), Some(7))]);
}

fn raw_diff() -> String {
    [
        "@@ -1,2 +1,2 @@\n",
        "-old\n",
        "+new\n",
        " same\n",
        "@@ -9,2 +9,2 @@ fn tail\n",
        " keep\n",
        "-gone\n",
    ]
    .concat()
}

#[test]
fn rows_mark_gaps_and_number_only_the_new_side() {
    let diff = parse_diff(&raw_diff(), 100);
    let now = Side::new("new\nsame\n", vec![((0, 3), Some(1))]);
    let was = Side::new("old\nsame\n", vec![((0, 3), Some(2))]);
    let rows = diff_rows(&diff, &now, &was);
    assert_eq!(rows.len(), 6);
    match &rows[0] {
        DiffRow::Code { kind, number, highlights, text } => {
            assert_eq!(*kind, LineKind::Removed);
            assert_eq!(*number, None);
            assert_eq!(highlights, &vec![((0, 3), Some(2))]);
            assert_eq!(text, "old");
        }
        other => panic!("expected a removed line, got {other:?}"),
    }
    match &rows[1] {
        DiffRow::Code { kind, number, highlights, .. } => {
            assert_eq!(*kind, LineKind::Added);
            assert_eq!(*number, Some(1));
            assert_eq!(highlights, &vec![((0, 3), Some(1))]);
        }
        other => panic!("expected an added line, got {other:?}"),
    }
    match &rows[3] {
        DiffRow::Skip(heading) => assert_eq!(heading.as_deref(), Some("fn tail")),
        other => panic!("expected a gap, got {other:?}"),
    }
    match &rows[4] {
        DiffRow::Code { number, highlights, .. } => {
            assert_eq!(*number, Some(9));
            assert!(highlights.is_empty(), "line 9 is past the end of the side");
        }
        other => panic!("expected a context line, got {other:?}"),
    }
}

#[test]
fn a_first_hunk_below_line_one_opens_with_a_gap() {
    let diff = parse_diff("@@ -5,1 +5,1 @@\n-a\n+b\n", 100);
    let empty: Side<Style> = Side::new("", vec![]);
    let rows = diff_rows(&diff, &empty, &empty);
    assert!(matches!(rows[0], DiffRow::Skip(None)));
    assert_eq!(rows.len(), 3);
}

fn text_preview(text: &str) -> Preview {
    Preview {
        key: Key { path: "/r/a.rs".to_string(), mtime: None },
        name: "a.rs".to_string(),
        size: Some(3),
        is_symlink: false,
        body: Body::Text { text: text.to_string(), language: Some("rust"), lines: 1, truncated: false },
    }
}

#[test]
fn only_a_text_preview_becomes_its_diff() {
    let mut preview = text_preview("new\nsame\n");
    assert_eq!(diff_language(&preview.body), Some(Some("rust")));
    let now = Side::new("new\nsame\n", vec![]);
    let was: Side<Style> = Side::new("", vec![]);
    let rows = with_diff(&mut preview, parse_diff(&raw_diff(), 100), &now, &was);
    assert_eq!(rows.len(), 6);
    assert!(matches!(preview.body, Body::Diff(_)));
    assert_eq!(preview.name, "a.rs");

    let mut dir = text_preview("");
    dir.body = Body::Directory { entries: Some(1) };
    assert_eq!(diff_language(&dir.body), None);
    let rows = with_diff(&mut dir, parse_diff(&raw_diff(), 100), &now, &was);
    assert!(rows.is_empty());
    assert!(matches!(dir.body, Body::Directory { entries: Some(1) }));
    assert_eq!(diff_language(&Body::Markdown(String::new())), Some(Some("markdown")));
}
