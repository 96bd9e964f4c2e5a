use omafiles::diff::parse_diff;
use omafiles::entry::natural_cmp;
use omafiles::git::{Cache, LineKind, Repo};
use omafiles::navigation::Navigation;

#[test]
fn a_cut_diff_holds_exactly_the_limit_and_numbers_count_up() {
    let raw = "@@ -1,3 +1,4 @@ one\n a\n-b\n+c\n+d\n e\n@@ -20,2 +21,2 @@ two\n x\n+y\n";
    let diff = parse_diff(raw, 4);
    assert!(diff.truncated);
    let rows: usize = diff.hunks.iter().map(|h| h.lines.len()).sum();
    assert_eq!(rows, 4);
    let added = diff.hunks.iter().flat_map(|h| h.lines.iter()).filter(|l| l.kind == LineKind::Added).count();
    assert_eq!(added, diff.added);
    let whole = parse_diff(raw, 100);
    assert!(!whole.truncated);
    for hunk in &whole.hunks {
        let new_side: Vec<u32> = hunk.lines.iter().filter(|l| l.kind != LineKind::Removed).map(|l| l.number).collect();
        assert!(new_side.windows(2).all(|w| w[1] == w[0] + 1));
    }
    assert_eq!(whole.hunks[0].lines.iter().filter(|l| l.kind != LineKind::Removed).map(|l| l.number).collect::<Vec<_>>(), vec![1, 2, 3, 4]);
}

#[test]
fn names_equal_but_for_case_or_zeros_compare_alike_with_a_third() {
    for third in ["a1", "a3", "b", "A", "a02x"] {
        assert_eq!(natural_cmp("a02", third), natural_cmp("a2", third), "{third}");
        assert_eq!(natural_cmp("File", third), natural_cmp("file", third), "{third}");
    }
}

#[test]
fn one_directory_however_written_is_walked_once() {
    let mut cache = Cache::new();
    let found = cache.repo_for("/r/sub/", |_| Some(Repo::new("/r".into(), "/r/.git".into(), "/r/.git".into())));
    assert!(found.is_some());
    let again = cache.repo_for("/r//sub", |_| None);
    assert_eq!(again.map(|r| r.root), Some("/r".to_string()));
    assert_eq!(cache.walks(), 1);
}

#[test]
fn back_then_forward_finds_the_cursor_where_it_was_left() {
    let mut n = Navigation::new("/a".to_string());
    n.go("/b".to_string(), Some("in-a"));
    assert!(n.go_back(Some("in-b")));
    assert!(n.go_forward(Some("in-a-again")));
    assert_eq!(n.remembered_cursor(), Some("in-b"));
}
