use omafiles::cursor::{cursor_after_reload, edge_of, kept_on, place_edge, restore_cursor, step, step_in, step_optional, PAGE};
use omafiles::entry::{Entry, Metadata};
use omafiles::listing::Listing;

#[test]
fn a_step_stops_at_either_end() {
    assert_eq!(step(0, -1, 5), 0);
    assert_eq!(step(2, 1, 5), 3);
    assert_eq!(step(4, 1, 5), 4);
    assert_eq!(step(3, PAGE, 5), 4);
    assert_eq!(step(3, -PAGE, 5), 0);
    assert_eq!(step(usize::MAX, isize::MIN, 1), 0);
    assert_eq!(step(7, 0, 5), 4, "a cursor past the end is pulled back");
}

#[test]
fn the_path_panel_cursor_can_leave_the_list_upwards() {
    assert_eq!(step_optional(None, 1, 3), Some(0));
    assert_eq!(step_optional(Some(0), -1, 3), None);
    assert_eq!(step_optional(None, -1, 3), None);
    assert_eq!(step_optional(Some(2), 1, 3), Some(2));
    assert_eq!(step_optional(Some(1), PAGE, 3), Some(2));
}

#[test]
fn the_listing_cursor_moves_through_the_rows_shown() {
    let visible = vec![4, 0, 2, 3];
    assert_eq!(step_in(&visible, Some(0), 1), Some(2));
    assert_eq!(step_in(&visible, Some(3), 1), Some(3));
    assert_eq!(step_in(&visible, Some(1), 1), Some(0), "a cursor on a hidden row starts from the top");
    assert_eq!(step_in(&visible, None, -1), Some(4));
    assert_eq!(step_in(&vec![], Some(1), 1), None);
    assert_eq!(edge_of(&visible, true), Some(3));
    assert_eq!(edge_of(&visible, false), Some(4));
    assert_eq!(edge_of(&vec![], true), None);
}

#[test]
fn hiding_rows_moves_a_cursor_that_was_on_one() {
    assert_eq!(kept_on(&vec![2, 3], Some(3)), Some(3));
    assert_eq!(kept_on(&vec![2, 3], Some(0)), Some(2));
    assert_eq!(kept_on(&vec![], Some(0)), None);
    assert_eq!(kept_on(&vec![5], None), Some(5));
    assert_eq!(place_edge(4, true), 3);
    assert_eq!(place_edge(0, true), 0);
    assert_eq!(place_edge(4, false), 0);
}

fn file(name: &str) -> Entry {
    Entry::from_path(format!("/d/{name}"), Some(Metadata { is_dir: false, len: 1, modified: None }), false)
}

#[test]
fn a_reload_puts_the_cursor_back_on_its_entry() {
    let listing = Listing::read("/d".to_string(), Ok(vec![file("b"), file(".h"), file("a")]));
    let b = listing.index_of_name("b").unwrap();
    assert_eq!(restore_cursor(&listing, false, Some("b")), Some(b));
    assert_eq!(restore_cursor(&listing, false, Some(".h")), None, "a hidden entry is not landed on");
    assert_eq!(restore_cursor(&listing, true, Some(".h")), listing.index_of_name(".h"));
    assert_eq!(restore_cursor(&listing, false, Some("gone")), None);
    assert_eq!(restore_cursor(&listing, false, None), None);
    assert_eq!(cursor_after_reload(&listing, false, Some("b")), Some(b));
    assert_eq!(cursor_after_reload(&listing, false, Some("gone")), listing.visible(false).first().copied());
    let empty = Listing::read("/e".to_string(), Ok(vec![]));
    assert_eq!(cursor_after_reload(&empty, false, Some("x")), None);
}
