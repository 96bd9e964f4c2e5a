use omafiles::grep::{finder_content_rows, parse_line, search, Hit, Outcome, LIMIT, LINE_CAP};

fn hit(path: &str) -> Hit {
    Hit { path: path.to_string(), line: 1, text: String::new() }
}

#[test]
fn a_match_event_becomes_a_hit_and_others_do_not() {
    let line = r#"{"type":"match","data":{"path":{"text":"src/main.rs"},"lines":{"text":"  fn main() {\n"},"line_number":3,"absolute_offset":0,"submatches":[]}}"#;
    let h = parse_line("/r", line).expect("a hit");
    assert_eq!(h.path, "/r/src/main.rs");
    assert_eq!(h.line, 3);
    assert_eq!(h.text, "fn main() {");
    assert!(parse_line("/r", r#"{"type":"begin","data":{"path":{"text":"a"}}}"#).is_none());
    assert!(parse_line("/r", "not json").is_none());
    assert!(parse_line("/r", r#"{"type":"match","data":{"path":{"text":"bin"},"line_number":1}}"#).is_none(), "a binary match carries no text");
}

#[test]
fn a_long_line_is_cut_on_a_character_boundary() {
    let long = "\u{e9}".repeat(200);
    let line = format!(r#"{{"type":"match","data":{{"path":{{"text":"a"}},"lines":{{"text":"{long}"}},"line_number":1}}}}"#);
    let h = parse_line("/r", &line).unwrap();
    assert!(h.text.ends_with('\u{2026}'));
    assert_eq!(h.text.chars().count(), 121);
    assert!(h.text.len() <= 240 + 3);
}

#[test]
fn the_list_stops_at_its_limit_and_says_so() {
    let mut outcome = Outcome::default();
    for i in 0..LIMIT {
        assert!(outcome.absorb(hit(&format!("/r/{i}"))));
    }
    assert!(!outcome.absorb(hit("/r/extra")));
    assert!(outcome.truncated);
    assert_eq!(outcome.hits.len(), LIMIT);
}

#[test]
fn only_a_failure_with_nothing_to_show_is_an_error() {
    assert_eq!(search(Outcome::default(), Some(2)).err(), Some("ripgrep failed on this directory".to_string()));
    assert!(search(Outcome::default(), Some(1)).is_ok());
    let mut some = Outcome::default();
    some.absorb(hit("/r/a"));
    assert_eq!(search(some, Some(2)).map(|o| o.hits.len()), Ok(1));
}

#[test]
fn a_file_found_by_name_is_not_listed_again_by_content() {
    let hits = vec![hit("/r/a"), hit("/r/b"), hit("/r/a")];
    let rows = finder_content_rows(&vec!["/r/a".to_string()], &hits);
    assert_eq!(rows, vec![hit("/r/b")]);
}

#[test]
fn parse_line_reads_the_match_event_and_skips_the_rest() {
    let root = "/srv";
    let event = r#"{"type":"match","data":{"path":{"text":"x/y.rs"},"lines":{"text":"  let n = 1;\n"},"line_number":7,"absolute_offset":0,"submatches":[]}}"#;
    let hit = parse_line(root, event).expect("a match parses");
    assert_eq!(hit.path, "/srv/x/y.rs");
    assert_eq!(hit.line, 7);
    assert_eq!(hit.text, "let n = 1;");

    for other in [r#"{"type":"begin","data":{"path":{"text":"x"}}}"#, r#"{"type":"summary","data":{}}"#, "not json at all"] {
        assert_eq!(parse_line(root, other), None);
    }
}

#[test]
fn long_lines_are_capped_on_a_char_boundary() {
    let root = "/srv";
    let long = format!("\u{e9}{}", "x".repeat(400));
    let event = format!(r#"{{"type":"match","data":{{"path":{{"text":"f"}},"lines":{{"text":"{long}"}},"line_number":1}}}}"#);
    let hit = parse_line(root, &event).expect("parses");
    assert!(hit.text.len() <= LINE_CAP + '\u{2026}'.len_utf8());
    assert!(hit.text.ends_with('\u{2026}'));
}
