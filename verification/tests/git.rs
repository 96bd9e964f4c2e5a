use omafiles::git::{
    branch_cursor, chosen_branch, clamp_cursor, filter_branches,
    gitdir_target, head_of, packed_ref_listed, ref_exists, rebase_branch, repo_at, symbolic_head,
    blob_at_head, blob_fits, branches, diff, from_xy, parse_status, relative_path, status, switch, switch_outcome, Cache,
    Counts, Head, LineKind, Repo, State, Status, MAX_BLOB_BYTES, MAX_DIFF_LINES,
};
use omafiles::diff::{diff_numbers_fit, parse_diff};

#[test]
fn the_rollup_stops_at_the_repository_root() {
    let root = "/tmp/repo";
    let mut status = Status::default();
    status.insert("/tmp/repo/a/b.txt".to_string(), State::Modified, root);

    assert_eq!(status.of("/tmp/repo/a"), Some(State::Modified));
    assert_eq!(status.of(root), Some(State::Modified));
    assert_eq!(status.of("/tmp"), None);
    assert_eq!(status.of("/"), None);
}

#[test]
fn the_worst_state_inside_a_directory_is_the_one_it_shows() {
    let root = "/tmp/repo";
    let mut status = Status::default();
    status.insert("/tmp/repo/a/new.txt".to_string(), State::Added, root);
    status.insert("/tmp/repo/a/edited.txt".to_string(), State::Modified, root);
    status.insert("/tmp/repo/a/stray.txt".to_string(), State::Untracked, root);

    assert_eq!(status.of("/tmp/repo/a"), Some(State::Modified));

    status.insert("/tmp/repo/a/clash.txt".to_string(), State::Conflicted, root);
    assert_eq!(status.of("/tmp/repo/a"), Some(State::Conflicted));
}

#[test]
fn the_porcelain_format_survives_spaces_and_renames() {
    let root = "/tmp/repo";
    let raw = [
        "# branch.head main\0",
        "1 .M N... 100644 100644 100644 aaa bbb my notes.txt\0",
        "2 R. N... 100644 100644 100644 aaa bbb R100 new name.txt\0old name.txt\0",
        "u UU N... 100644 100644 100644 100644 aaa bbb ccc clash.txt\0",
        "? stray file.txt\0",
    ]
    .concat();
    let status = parse_status(&raw, root);

    assert_eq!(status.of("/tmp/repo/my notes.txt"), Some(State::Modified), "a path with spaces is one field, not several");
    assert_eq!(status.of("/tmp/repo/new name.txt"), Some(State::Modified), "a rename is reported at its new path");
    assert_eq!(status.of("/tmp/repo/old name.txt"), None, "the rename's second record is consumed, not parsed as an entry");
    assert_eq!(status.of("/tmp/repo/clash.txt"), Some(State::Conflicted));
    assert_eq!(status.of("/tmp/repo/stray file.txt"), Some(State::Untracked));
    assert_eq!(status.counts.total(), 4);
}

#[test]
fn xy_codes_prefer_the_state_that_says_the_most() {
    assert_eq!(from_xy("A."), State::Added);
    assert_eq!(from_xy("AM"), State::Added, "added then edited is still new");
    assert_eq!(from_xy(".D"), State::Deleted);
    assert_eq!(from_xy("M."), State::Modified);
    assert_eq!(from_xy(".M"), State::Modified);
    assert_eq!(from_xy("R."), State::Modified);
}

#[test]
fn the_unified_format_parses_into_numbered_rows() {
    let raw = [
        "diff --git a/src/main.rs b/src/main.rs\n",
        "index 1234567..89abcde 100644\n",
        "--- a/src/main.rs\n",
        "+++ b/src/main.rs\n",
        "@@ -10,4 +10,5 @@ fn main() {\n",
        " let a = 1;\n",
        "-let b = 2;\n",
        "+let b = 3;\n",
        "+let c = 4;\n",
        " let d = 5;\n",
        "\\ No newline at end of file\n",
    ]
    .concat();
    let diff = parse_diff(&raw, 100);

    assert_eq!(diff.hunks.len(), 1);
    assert_eq!(diff.hunks[0].heading.as_deref(), Some("fn main() {"));
    assert_eq!((diff.added, diff.removed), (2, 1));

    let lines = &diff.hunks[0].lines;
    assert_eq!(lines.len(), 5);
    assert!(!lines.iter().any(|l| l.text.contains("src/main.rs")));

    assert_eq!((lines[0].kind, lines[0].number), (LineKind::Context, 10));
    assert_eq!((lines[1].kind, lines[1].number), (LineKind::Removed, 11));
    assert_eq!((lines[2].kind, lines[2].number), (LineKind::Added, 11));
    assert_eq!((lines[3].kind, lines[3].number), (LineKind::Added, 12));
    assert_eq!((lines[4].kind, lines[4].number), (LineKind::Context, 13));

    assert!(!lines.iter().any(|l| l.text.contains("No newline")));
}

#[test]
fn a_second_files_header_does_not_become_two_rows() {
    let raw = [
        "diff --git a/one b/one\n",
        "@@ -1 +1 @@\n",
        "-a\n",
        "+b\n",
        "diff --git a/two b/two\n",
        "--- a/two\n",
        "+++ b/two\n",
        "@@ -1 +1 @@\n",
        "-c\n",
        "+d\n",
    ]
    .concat();
    let diff = parse_diff(&raw, 100);
    assert_eq!(diff.hunks.len(), 2);
    assert_eq!(diff.hunks[1].lines.len(), 2);
    assert_eq!((diff.added, diff.removed), (2, 2));
}

#[test]
fn a_cut_between_hunks_leaves_no_empty_heading() {
    let raw = [
        "@@ -1,2 +1,2 @@ first\n",
        "-a\n",
        "+b\n",
        "@@ -9,2 +9,2 @@ second\n",
        "-c\n",
        "+d\n",
    ]
    .concat();
    let diff = parse_diff(&raw, 2);
    assert!(diff.truncated);
    assert_eq!(diff.hunks.len(), 1);
    assert_eq!(diff.hunks[0].heading.as_deref(), Some("first"));
}

#[test]
fn a_hunk_with_no_section_name_still_parses() {
    let diff = parse_diff("@@ -1 +1 @@\n-a\n+b\n", 100);
    assert_eq!(diff.hunks.len(), 1);
    assert_eq!(diff.hunks[0].heading, None);
    assert_eq!(diff.hunks[0].lines[0].number, 1);
}

#[test]
fn a_huge_diff_is_cut_at_the_cap_and_says_so() {
    let mut raw = String::from("@@ -1,1 +1,1200 @@\n");
    for i in 0..MAX_DIFF_LINES * 2 {
        raw.push_str(&format!("+line {i}\n"));
    }
    let d = diff(Some(&raw)).expect("a diff");
    assert!(d.truncated);
    assert_eq!(d.hunks.iter().map(|h| h.lines.len()).sum::<usize>(), MAX_DIFF_LINES);
    assert_eq!(d.added, MAX_DIFF_LINES);
}

#[test]
fn a_binary_file_or_a_failed_git_gives_no_diff() {
    assert!(diff(Some("Binary files a/x.png and b/x.png differ\n")).is_none());
    assert!(diff(None).is_none());
}

#[test]
fn a_collapsed_untracked_directory_marks_what_is_inside() {
    let st = parse_status("? strays/\0", "/r");
    assert_eq!(st.of("/r/strays"), Some(State::Untracked));
    assert_eq!(st.of("/r/strays/inside.txt"), Some(State::Untracked));
    assert_eq!(st.of("/r"), Some(State::Untracked));
    assert_eq!(st.of("/elsewhere"), None);
}

#[test]
fn a_status_that_could_not_run_is_clean() {
    let st = status(None, "/r");
    assert!(st.counts.is_clean());
    assert_eq!(st.of("/r"), None);
}

#[test]
fn the_summary_lists_nonzero_groups_in_marker_order() {
    let counts = Counts { added: 2, modified: 0, deleted: 1, untracked: 0, conflicted: 3 };
    assert_eq!(counts.total(), 6);
    assert!(!counts.is_clean());
    assert_eq!(counts.summary(), vec![(State::Conflicted, 3), (State::Added, 2), (State::Deleted, 1)]);
    assert!(Counts::default().is_clean());
}

#[test]
fn markers_and_roles_tell_conflicts_from_deletions_by_shape() {
    assert_eq!(State::Conflicted.marker(), "!");
    assert_eq!(State::Deleted.marker(), "\u{2212}");
    assert_eq!(State::Deleted.role(), "red");
    assert_eq!(State::Conflicted.role(), "red");
    assert_eq!(State::Untracked.role(), "muted");
    assert!(State::Conflicted.severity() > State::Deleted.severity());
    assert!(State::Modified.severity() > State::Added.severity());
}

#[test]
fn head_labels_say_the_state() {
    assert_eq!(Head::Branch("main".to_string()).label(), "main");
    assert_eq!(Head::Unborn("main".to_string()).label(), "main \u{b7} no commits");
    assert_eq!(Head::Detached("abc1234".to_string()).label(), "detached at abc1234");
    assert_eq!(Head::Rebasing(None).label(), "rebasing");
    assert_eq!(Head::Merging(Some("topic".to_string())).label(), "merging topic");
    assert_eq!(Head::Unborn("x".to_string()).branch(), Some("x"));
    assert_eq!(Head::Detached("abc".to_string()).branch(), None);
}

#[test]
fn branches_are_the_trimmed_nonblank_lines() {
    assert_eq!(branches("  main\ntopic  \n\n  \nfix/x\n"), vec!["main", "topic", "fix/x"]);
    assert!(branches("").is_empty());
}

#[test]
fn a_switch_never_passes_a_flag_and_words_refusals() {
    assert!(switch("--force").is_err());
    assert_eq!(switch("--force").unwrap_err(), "a branch name cannot begin with a dash");
    assert!(switch("topic").is_ok());
    assert_eq!(switch_outcome(true, "ignored"), Ok(()));
    assert_eq!(switch_outcome(false, "  error: your local changes would be overwritten \n"), Err("error: your local changes would be overwritten".to_string()));
    assert_eq!(switch_outcome(false, "   "), Err("git refused the switch and said nothing".to_string()));
}

#[test]
fn the_head_blob_is_asked_for_relative_to_the_root() {
    assert_eq!(blob_at_head("/r", "/r/src/main.rs"), Some("HEAD:src/main.rs".to_string()));
    assert_eq!(blob_at_head("/r/", "/r/a.txt"), Some("HEAD:a.txt".to_string()));
    assert_eq!(blob_at_head("/r", "/elsewhere/a.txt"), None);
    assert_eq!(blob_at_head("/r", "/rx/a.txt"), None);
    assert_eq!(relative_path("/", "/etc/hosts"), Some("etc/hosts".to_string()));
    assert!(blob_fits(true, MAX_BLOB_BYTES));
    assert!(!blob_fits(true, MAX_BLOB_BYTES + 1));
    assert!(!blob_fits(false, 1));
}

#[test]
fn the_repository_cache_keeps_negative_answers() {
    let mut cache = Cache::new();
    let asked = std::cell::Cell::new(0);
    assert_eq!(cache.repo_for("/tmp/not-a-repo", |_| { asked.set(asked.get() + 1); None }), None);
    assert_eq!(cache.walks(), 1);
    assert_eq!(cache.repo_for("/tmp/not-a-repo", |_| Some(Repo::new("x".into(), "y".into(), "z".into()))), None);
    assert_eq!(cache.walks(), 1, "the second lookup is answered from the cache");
    assert_eq!(asked.get(), 1);
    let found = cache.repo_for("/r/sub", |_| Some(Repo::new("/r".into(), "/r/.git".into(), "/r/.git".into())));
    assert_eq!(found.map(|r| r.root), Some("/r".to_string()));
    cache.clear();
    assert_eq!(cache.walks(), 2);
    assert!(cache.repo_for("/tmp/not-a-repo", |_| None).is_none());
    assert_eq!(cache.walks(), 3, "a cleared cache walks again");
}

#[test]
fn head_reads_a_branch_an_unborn_branch_and_a_detached_one_from_its_files() {
    let text = "ref: refs/heads/main\n";
    assert_eq!(symbolic_head(text), Some("main".to_string()));
    assert_eq!(head_of(false, None, false, Some(text), false), Head::Unborn("main".to_string()));
    assert_eq!(head_of(false, None, false, Some(text), false).label(), "main · no commits");
    assert_eq!(head_of(false, None, false, Some(text), true), Head::Branch("main".to_string()));
    let oid = "0123456789abcdef0123456789abcdef01234567\n";
    assert_eq!(symbolic_head(oid), None);
    assert_eq!(head_of(false, None, false, Some(oid), true), Head::Detached("0123456".to_string()));
    assert!(head_of(false, None, false, Some(oid), true).label().starts_with("detached at "));
    assert_eq!(head_of(false, None, false, None, false), Head::Detached(String::new()));
}

#[test]
fn an_interrupted_operation_outranks_the_branch() {
    let text = "ref: refs/heads/main\n";
    assert_eq!(
        head_of(true, Some("refs/heads/topic\n"), true, Some(text), true),
        Head::Rebasing(Some("topic".to_string()))
    );
    assert_eq!(head_of(true, None, false, Some(text), true), Head::Rebasing(None));
    assert!(head_of(true, None, false, Some(text), true).label().contains("rebasing"));
    assert_eq!(head_of(false, None, true, Some(text), true), Head::Merging(Some("main".to_string())));
    assert_eq!(head_of(false, None, true, None, true), Head::Merging(None));
    assert_eq!(rebase_branch(Some("  detached-name  ")), Some("detached-name".to_string()));
}

#[test]
fn packed_refs_are_matched_by_their_whole_suffix() {
    let packed = "# pack-refs with: peeled fully-peeled sorted\n1111 refs/heads/main\n2222 refs/heads/feature/x\n";
    assert!(packed_ref_listed(packed, "main"));
    assert!(packed_ref_listed(packed, "feature/x"));
    assert!(!packed_ref_listed(packed, "ma"));
    assert!(!packed_ref_listed(packed, "x"));
    assert!(!packed_ref_listed("", "main"));
}

#[test]
fn a_git_file_points_at_its_directory() {
    assert_eq!(gitdir_target("/w/sub", "gitdir: ../.git/modules/sub\n"), Some("/w/sub/../.git/modules/sub".to_string()));
    assert_eq!(gitdir_target("/w/tree", "gitdir: /w/main/.git/worktrees/tree\n"), Some("/w/main/.git/worktrees/tree".to_string()));
    assert_eq!(gitdir_target("/w", "something else"), None);
    let linked = repo_at("/w/tree", "/w/main/.git/worktrees/tree", Some("../..\n"));
    assert_eq!(linked.common_dir, "/w/main/.git/worktrees/tree/../..");
    let plain = repo_at("/w", "/w/.git", None);
    assert_eq!(plain.common_dir, "/w/.git");
    assert_eq!(plain.root, "/w");
}

#[test]
fn line_numbers_past_u32_are_caught_before_parsing() {
    assert!(diff_numbers_fit("@@ -1,2 +1,2 @@\n a\n-b\n+c\n", MAX_DIFF_LINES));
    assert!(diff_numbers_fit("@@ -4294967294,1 +1,1 @@\n-a\n", MAX_DIFF_LINES));
    assert!(!diff_numbers_fit("@@ -4294967295,1 +1,1 @@\n-a\n", MAX_DIFF_LINES));
    assert!(!diff_numbers_fit("@@ -4294967295,2 +1,2 @@\n a\n b\n", MAX_DIFF_LINES));
    assert!(diff_numbers_fit("@@ -4294967295,2 +1,2 @@\n a\n b\n", 0), "past the limit nothing is counted");
    assert!(diff_numbers_fit("", MAX_DIFF_LINES));
}

#[test]
fn the_switcher_filters_case_aside_and_starts_on_the_current_branch() {
    let all: Vec<String> = ["main", "Feature/Login", "fix-login", "docs"].iter().map(|s| s.to_string()).collect();
    assert_eq!(filter_branches(&all, "LOGIN"), ["Feature/Login", "fix-login"]);
    assert_eq!(filter_branches(&all, ""), all);
    assert!(filter_branches(&all, "zzz").is_empty());
    assert_eq!(branch_cursor(&all, Some("fix-login")), 2);
    assert_eq!(branch_cursor(&all, Some("gone")), 0);
    assert_eq!(branch_cursor(&all, None), 0);
    assert_eq!(clamp_cursor(3, 2), 1);
    assert_eq!(clamp_cursor(3, 0), 0);
    assert_eq!(clamp_cursor(1, 4), 1);
    assert_eq!(chosen_branch(&all, 1, Some("main")), Some("Feature/Login".to_string()));
    assert_eq!(chosen_branch(&all, 0, Some("main")), None, "already there");
    assert_eq!(chosen_branch(&all, 9, None), None);
}

#[test]
fn a_branch_resolves_loose_or_packed() {
    let packed = "1111 refs/heads/main\n";
    assert!(ref_exists("/omafiles-definitely-not-here/.git", "main", Some(packed)));
    assert!(!ref_exists("/omafiles-definitely-not-here/.git", "topic", Some(packed)));
    assert!(!ref_exists("/omafiles-definitely-not-here/.git", "main", None));
}
