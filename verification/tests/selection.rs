use omafiles::entry::{Entry, Metadata};
use omafiles::listing::Listing;
use omafiles::selection::Marks;

fn file(name: &str) -> Entry {
    Entry::from_path(format!("/d/{name}"), Some(Metadata { is_dir: false, len: 1, modified: None }), false)
}

/// `.h`, `a`, `b`, `c`, `d` in name order.
fn listing() -> Listing {
    Listing::read("/d".to_string(), Ok(vec![file("c"), file("a"), file(".h"), file("d"), file("b")]))
}

fn names(listing: &Listing, indices: &[usize]) -> Vec<String> {
    indices.iter().map(|&i| listing.get(i).unwrap().name.clone()).collect()
}

#[test]
fn marks_follow_names_and_a_toggle_flips_one() {
    let l = listing();
    let mut marks = Marks::new();
    let b = l.index_of_name("b").unwrap();
    marks.mark(&l, b, true);
    assert!(marks.contains("b"));
    assert_eq!(marks.len(), 1);
    marks.mark(&l, b, true);
    assert_eq!(marks.len(), 1, "marking twice keeps one mark");
    marks.toggle_mark(&l, b);
    assert!(!marks.contains("b"));
    assert!(marks.is_empty());
    marks.toggle_mark(&l, b);
    assert!(marks.contains("b"));
    marks.mark(&l, 99, true);
    assert_eq!(marks.len(), 1, "an index past the listing marks nothing");
}

#[test]
fn a_range_marks_every_visible_entry_between_both_ends() {
    let l = listing();
    let mut marks = Marks::new();
    let a = l.index_of_name("a").unwrap();
    let c = l.index_of_name("c").unwrap();
    marks.mark_range(&l, false, c, a);
    assert_eq!(names(&l, &marks.selection(&l, false)), ["a", "b", "c"]);
    assert!(!marks.contains(".h"));
    let hidden = l.index_of_name(".h").unwrap();
    let mut none = Marks::new();
    none.mark_range(&l, false, hidden, a);
    assert!(none.is_empty(), "an end that is not visible marks nothing");
}

#[test]
fn select_all_selects_exactly_the_visible_entries() {
    let l = listing();
    let mut marks = Marks::new();
    marks.select_all(&l, false);
    assert_eq!(marks.selection(&l, false), l.visible(false));
    assert_eq!(marks.len(), 4);
    let mut all = Marks::new();
    all.select_all(&l, true);
    assert_eq!(all.selection(&l, true), l.visible(true));
    assert_eq!(all.len(), 5);
}

#[test]
fn pruning_forgets_names_that_are_gone() {
    let l = listing();
    let mut marks = Marks::new();
    marks.insert("a".to_string());
    marks.insert("moved-away".to_string());
    marks.prune(&l);
    assert!(marks.contains("a"));
    assert!(!marks.contains("moved-away"));
    assert_eq!(marks.len(), 1);
    marks.remove("a");
    assert!(marks.is_empty());
}
