use omafiles::entry::{Entry, Kind, Metadata};
use omafiles::listing::{describe_empty, is_navigable, Listing, Sort, SortKey};

fn file(name: &str, size: u64, modified: Option<i128>) -> Entry {
    Entry::from_path(format!("/d/{name}"), Some(Metadata { is_dir: false, len: size, modified }), false)
}

fn dir(name: &str) -> Entry {
    Entry::from_path(format!("/d/{name}"), Some(Metadata { is_dir: true, len: 4096, modified: Some(0) }), false)
}

fn names_in_order(listing: &Listing) -> Vec<String> {
    listing.visible(true).into_iter().map(|i| listing.get(i).unwrap().name.clone()).collect()
}

#[test]
fn a_click_turns_the_current_column_and_starts_a_new_one_naturally() {
    let sort = Sort::default();
    let by_size = sort.clicked(SortKey::Size);
    assert_eq!(by_size.key, SortKey::Size);
    assert!(by_size.descending, "size starts largest first");
    assert!(!by_size.clicked(SortKey::Size).descending);
    let by_age = by_size.clicked(SortKey::Age);
    assert!(!by_age.descending, "age starts newest first");
    assert!(!by_age.clicked(SortKey::Name).descending);
}

#[test]
fn reads_and_sorts_directories_before_files() {
    let listing = Listing::read("/d".to_string(), Ok(vec![file("b.txt", 2, None), dir("a_dir"), file("a.txt", 1, None)]));
    let names: Vec<&str> = listing.all().iter().map(|e| e.name.as_str()).collect();
    assert_eq!(names, ["a_dir", "a.txt", "b.txt"]);
    assert_eq!(listing.all()[2].size, Some(2));
    assert_eq!(listing.all()[0].size, None, "directories carry no size");
}

#[test]
fn hidden_entries_are_read_but_filtered_at_the_view() {
    let listing = Listing::read("/d".to_string(), Ok(vec![file(".secret", 0, None), file("visible", 0, None)]));
    assert_eq!(listing.all().len(), 2);
    assert_eq!(listing.visible(false).len(), 1);
    assert_eq!(listing.visible(true).len(), 2);
    assert_eq!(listing.counts(false), (0, 1));
    assert_eq!(listing.counts(true), (0, 2));
}

#[test]
fn an_unreadable_directory_yields_an_error_not_a_panic() {
    let listing = Listing::read("/nowhere".to_string(), Err("permission denied".to_string()));
    assert!(listing.error.is_some());
    assert!(listing.is_empty());
    assert_eq!(describe_empty(&listing, false), "cannot read this directory");
}

#[test]
fn distinguishes_empty_from_all_hidden() {
    assert_eq!(describe_empty(&Listing::read("/e".to_string(), Ok(vec![])), false), "empty directory");
    let hidden = Listing::read("/h".to_string(), Ok(vec![file(".only", 0, None)]));
    assert_eq!(describe_empty(&hidden, false), "only hidden files here");
    assert_eq!(describe_empty(&hidden, true), "");
}

#[test]
fn finds_an_entry_by_name_for_cursor_restore() {
    let listing = Listing::read("/d".to_string(), Ok(vec![file("c", 0, None), file("a", 0, None), file("b", 0, None)]));
    assert_eq!(listing.index_of_name("b"), Some(1));
    assert_eq!(listing.index_of_name("nope"), None);
}

#[test]
fn sorting_moves_the_rows_but_not_the_indices() {
    let mut listing = Listing::read(
        "/d".to_string(),
        Ok(vec![file("small", 1, None), file("big", 8, None), file("mid", 3, None), dir("folder")]),
    );
    assert_eq!(names_in_order(&listing), ["folder", "big", "mid", "small"]);
    let big = listing.index_of_name("big").unwrap();

    listing.sort(Sort { key: SortKey::Size, descending: true });
    assert_eq!(names_in_order(&listing), ["folder", "big", "mid", "small"]);
    listing.sort(Sort { key: SortKey::Size, descending: false });
    assert_eq!(names_in_order(&listing), ["folder", "small", "mid", "big"]);
    assert_eq!(listing.index_of_name("big"), Some(big));

    listing.sort(Sort { key: SortKey::Name, descending: true });
    assert_eq!(names_in_order(&listing), ["folder", "small", "mid", "big"]);
    assert_eq!(listing.sort_order(), Sort { key: SortKey::Name, descending: true });
}

#[test]
fn age_ascending_is_newest_first_and_dateless_last() {
    let link = Entry::from_path("/d/link".to_string(), None, true);
    let mut listing = Listing::read(
        "/d".to_string(),
        Ok(vec![file("old", 0, Some(1_000_000_000)), file("new", 0, Some(9_000_000_000)), link]),
    );
    listing.sort(Sort { key: SortKey::Age, descending: false });
    assert_eq!(names_in_order(&listing), ["new", "old", "link"]);
    listing.sort(Sort { key: SortKey::Age, descending: true });
    assert_eq!(names_in_order(&listing), ["link", "old", "new"]);
}

#[test]
fn a_broken_symlink_is_listed_not_dropped() {
    let listing = Listing::read("/d".to_string(), Ok(vec![Entry::from_path("/d/link".to_string(), None, true)]));
    assert_eq!(listing.all().len(), 1);
    let entry = &listing.all()[0];
    assert_eq!(entry.kind, Kind::Unresolved);
    assert!(entry.is_symlink);
    assert!(!is_navigable(entry));
}

#[test]
fn read_sorted_orders_in_one_go() {
    let listing = Listing::read_sorted(
        "/d".to_string(),
        Ok(vec![file("a", 5, None), file("b", 50, None)]),
        Sort { key: SortKey::Size, descending: true },
    );
    assert_eq!(names_in_order(&listing), ["b", "a"]);
    assert_eq!(listing.parent(), Some("/".to_string()));
    assert_eq!(Listing::empty("/".to_string()).parent(), None);
    assert!(SortKey::Size.natural_descending());
    assert!(!SortKey::Age.natural_descending());
}

#[test]
fn the_column_comparison_puts_directories_first_either_way() {
    let a = dir("zeta");
    let b = file("alpha", 10, None);
    let down = Sort { key: SortKey::Name, descending: true };
    assert_eq!(down.cmp(&a, &b), std::cmp::Ordering::Less);
    assert_eq!(Sort::default().cmp(&b, &a), std::cmp::Ordering::Greater);
}
