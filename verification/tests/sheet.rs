use omafiles::grep::{finder_row_path, finder_target, Hit};
use omafiles::palette::filter_help;

fn groups() -> Vec<(String, Vec<(String, String)>)> {
    vec![
        ("Move".to_string(), vec![("j / \u{2193}".to_string(), "next".to_string()), ("k / \u{2191}".to_string(), "previous".to_string())]),
        ("Select".to_string(), vec![("space".to_string(), "toggle mark".to_string()), ("^a".to_string(), "select all".to_string())]),
    ]
}

#[test]
fn the_help_sheet_keeps_a_group_by_title_or_by_row() {
    let g = groups();
    assert_eq!(filter_help(&g, ""), vec![(0, vec![0, 1]), (1, vec![0, 1])]);
    assert_eq!(filter_help(&g, "  MOVE "), vec![(0, vec![0, 1])]);
    assert_eq!(filter_help(&g, "next"), vec![(0, vec![0])]);
    assert_eq!(filter_help(&g, "SPACE"), vec![(1, vec![0])]);
    assert_eq!(filter_help(&g, "e"), vec![(0, vec![0, 1]), (1, vec![0, 1])]);
    assert_eq!(filter_help(&g, "zzz"), Vec::<(usize, Vec<usize>)>::new());
}

fn hit(path: &str) -> Hit {
    Hit { path: path.to_string(), line: 1, text: "t".to_string() }
}

#[test]
fn a_finder_row_resolves_to_its_path() {
    let recent = vec!["/r/one".to_string()];
    let names = vec!["/d/a.txt".to_string()];
    let hits = vec![hit("/d//a.txt"), hit("/d/b.txt")];
    assert_eq!(finder_row_path(true, &recent, &names, &hits, 0), Some("/r/one".to_string()));
    assert_eq!(finder_row_path(true, &recent, &names, &hits, 1), None);
    assert_eq!(finder_row_path(false, &recent, &names, &hits, 0), Some("/d/a.txt".to_string()));
    assert_eq!(finder_row_path(false, &recent, &names, &hits, 1), Some("/d/b.txt".to_string()), "a file named already is not listed twice");
    assert_eq!(finder_row_path(false, &recent, &names, &hits, 2), None);
    assert_eq!(finder_target("/d/b.txt", false), "/d");
    assert_eq!(finder_target("/d/sub", true), "/d/sub");
    assert_eq!(finder_target("/", false), "");
}
