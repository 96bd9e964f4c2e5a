//! The command palette: every command by name, with the action it runs,
//! and the filter that narrows the list as the user types.

use vstd::prelude::*;
use crate::keymap::{action_names, is_known};
use crate::network::contains_text;
use crate::diff::{trim_bounds, trim_ws};
use crate::text::{chars_of, string_of};

verus! {

/// The palette's commands, in the order they are listed: a label, and the
/// keymap action it runs — which is what the palette's key hint looks up.
#[verifier::opaque]
pub open spec fn commands() -> Seq<(&'static str, &'static str)> {
    seq![
        ("Go to parent directory", "go_up"),
        ("Go back", "go_back"),
        ("Go forward", "go_forward"),
        ("Edit path", "edit_path"),
        ("Refresh", "refresh"),
        ("Toggle hidden files", "toggle_hidden"),
        ("Find files", "start_search"),
        ("Add network location", "add_network"),
        ("Expand preview", "toggle_preview"),
        ("Open with default app", "open"),
        ("Terminal here", "open_terminal"),
        ("Ask the agent", "ask_agent"),
        ("Share via LocalSend", "share_entry"),
        ("Copy", "copy_entry"),
        ("Cut", "cut_entry"),
        ("Copy path", "copy_path"),
        ("Paste here", "paste_here"),
        ("Move to trash", "delete_entry"),
        ("Compress to zip", "compress_entry"),
        ("Move to\u{2026}", "move_entry"),
        ("New file or directory", "create_file"),
        ("Entry menu", "entry_menu"),
        ("HTTP servers", "server_list"),
        ("HTTP server", "server_menu"),
        ("Switch git branch", "switch_branch"),
        ("New tab", "new_tab"),
        ("Close tab", "close_tab"),
        ("Next tab", "next_tab"),
        ("Previous tab", "previous_tab"),
        ("New workspace", "new_workspace"),
        ("Rename workspace", "rename_workspace"),
        ("Delete workspace", "delete_workspace"),
        ("Move tab to next workspace", "move_tab_to_next_workspace"),
        ("Pin this directory", "pin_current"),
        ("Toggle sidebar", "toggle_left_panel"),
        ("Toggle detail panel", "toggle_right_panel"),
        ("Select all", "select_all"),
        ("Toggle button labels", "toggle_button_labels"),
        ("Keyboard shortcuts", "show_help"),
        ("Quit", "quit")
    ]
}

pub fn command_list() -> (t: Vec<(&'static str, &'static str)>)
    ensures
        t@ == commands(),
{
    reveal(commands);
    let mut t: Vec<(&'static str, &'static str)> = Vec::new();
    t.push(("Go to parent directory", "go_up"));
    t.push(("Go back", "go_back"));
    t.push(("Go forward", "go_forward"));
    t.push(("Edit path", "edit_path"));
    t.push(("Refresh", "refresh"));
    t.push(("Toggle hidden files", "toggle_hidden"));
    t.push(("Find files", "start_search"));
    t.push(("Add network location", "add_network"));
    t.push(("Expand preview", "toggle_preview"));
    t.push(("Open with default app", "open"));
    t.push(("Terminal here", "open_terminal"));
    t.push(("Ask the agent", "ask_agent"));
    t.push(("Share via LocalSend", "share_entry"));
    t.push(("Copy", "copy_entry"));
    t.push(("Cut", "cut_entry"));
    t.push(("Copy path", "copy_path"));
    t.push(("Paste here", "paste_here"));
    t.push(("Move to trash", "delete_entry"));
    t.push(("Compress to zip", "compress_entry"));
    t.push(("Move to\u{2026}", "move_entry"));
    t.push(("New file or directory", "create_file"));
    t.push(("Entry menu", "entry_menu"));
    t.push(("HTTP servers", "server_list"));
    t.push(("HTTP server", "server_menu"));
    t.push(("Switch git branch", "switch_branch"));
    t.push(("New tab", "new_tab"));
    t.push(("Close tab", "close_tab"));
    t.push(("Next tab", "next_tab"));
    t.push(("Previous tab", "previous_tab"));
    t.push(("New workspace", "new_workspace"));
    t.push(("Rename workspace", "rename_workspace"));
    t.push(("Delete workspace", "delete_workspace"));
    t.push(("Move tab to next workspace", "move_tab_to_next_workspace"));
    t.push(("Pin this directory", "pin_current"));
    t.push(("Toggle sidebar", "toggle_left_panel"));
    t.push(("Toggle detail panel", "toggle_right_panel"));
    t.push(("Select all", "select_all"));
    t.push(("Toggle button labels", "toggle_button_labels"));
    t.push(("Keyboard shortcuts", "show_help"));
    t.push(("Quit", "quit"));
    assert(t@ =~= commands());
    t
}

/// Every palette command names an action the keymap knows, so no command
/// is a dead entry and every one can show its keys.
pub proof fn lemma_every_command_is_known()
    ensures
        forall|i: int| 0 <= i < commands().len() ==> is_known((#[trigger] commands()[i]).1@),
{
    reveal(commands);
    reveal(crate::keymap::default_rows_0);
    reveal(crate::keymap::default_rows_1);
    reveal(crate::keymap::default_rows_2);
    reveal(crate::keymap::default_rows_3);
    reveal(crate::keymap::default_rows_4);
    reveal(crate::keymap::default_rows_5);
    assert(action_names()[58] == commands()[0].1);
    assert(action_names()[61] == commands()[1].1);
    assert(action_names()[62] == commands()[2].1);
    assert(action_names()[32] == commands()[3].1);
    assert(action_names()[64] == commands()[4].1);
    assert(action_names()[63] == commands()[5].1);
    assert(action_names()[16] == commands()[6].1);
    assert(action_names()[36] == commands()[7].1);
    assert(action_names()[67] == commands()[8].1);
    assert(action_names()[6] == commands()[9].1);
    assert(action_names()[17] == commands()[10].1);
    assert(action_names()[69] == commands()[11].1);
    assert(action_names()[70] == commands()[12].1);
    assert(action_names()[71] == commands()[13].1);
    assert(action_names()[72] == commands()[14].1);
    assert(action_names()[73] == commands()[15].1);
    assert(action_names()[74] == commands()[16].1);
    assert(action_names()[75] == commands()[17].1);
    assert(action_names()[76] == commands()[18].1);
    assert(action_names()[77] == commands()[19].1);
    assert(action_names()[78] == commands()[20].1);
    assert(action_names()[79] == commands()[21].1);
    assert(action_names()[35] == commands()[22].1);
    assert(action_names()[34] == commands()[23].1);
    assert(action_names()[33] == commands()[24].1);
    assert(action_names()[21] == commands()[25].1);
    assert(action_names()[22] == commands()[26].1);
    assert(action_names()[23] == commands()[27].1);
    assert(action_names()[24] == commands()[28].1);
    assert(action_names()[25] == commands()[29].1);
    assert(action_names()[28] == commands()[30].1);
    assert(action_names()[26] == commands()[31].1);
    assert(action_names()[27] == commands()[32].1);
    assert(action_names()[20] == commands()[33].1);
    assert(action_names()[30] == commands()[34].1);
    assert(action_names()[31] == commands()[35].1);
    assert(action_names()[85] == commands()[36].1);
    assert(action_names()[86] == commands()[37].1);
    assert(action_names()[15] == commands()[38].1);
    assert(action_names()[14] == commands()[39].1);
    assert forall|i: int| 0 <= i < commands().len() implies is_known((#[trigger] commands()[i]).1@) by {
        if i == 0 {
            assert(action_names()[58]@ == commands()[0].1@);
        } else if i == 1 {
            assert(action_names()[61]@ == commands()[1].1@);
        } else if i == 2 {
            assert(action_names()[62]@ == commands()[2].1@);
        } else if i == 3 {
            assert(action_names()[32]@ == commands()[3].1@);
        } else if i == 4 {
            assert(action_names()[64]@ == commands()[4].1@);
        } else if i == 5 {
            assert(action_names()[63]@ == commands()[5].1@);
        } else if i == 6 {
            assert(action_names()[16]@ == commands()[6].1@);
        } else if i == 7 {
            assert(action_names()[36]@ == commands()[7].1@);
        } else if i == 8 {
            assert(action_names()[67]@ == commands()[8].1@);
        } else if i == 9 {
            assert(action_names()[6]@ == commands()[9].1@);
        } else if i == 10 {
            assert(action_names()[17]@ == commands()[10].1@);
        } else if i == 11 {
            assert(action_names()[69]@ == commands()[11].1@);
        } else if i == 12 {
            assert(action_names()[70]@ == commands()[12].1@);
        } else if i == 13 {
            assert(action_names()[71]@ == commands()[13].1@);
        } else if i == 14 {
            assert(action_names()[72]@ == commands()[14].1@);
        } else if i == 15 {
            assert(action_names()[73]@ == commands()[15].1@);
        } else if i == 16 {
            assert(action_names()[74]@ == commands()[16].1@);
        } else if i == 17 {
            assert(action_names()[75]@ == commands()[17].1@);
        } else if i == 18 {
            assert(action_names()[76]@ == commands()[18].1@);
        } else if i == 19 {
            assert(action_names()[77]@ == commands()[19].1@);
        } else if i == 20 {
            assert(action_names()[78]@ == commands()[20].1@);
        } else if i == 21 {
            assert(action_names()[79]@ == commands()[21].1@);
        } else if i == 22 {
            assert(action_names()[35]@ == commands()[22].1@);
        } else if i == 23 {
            assert(action_names()[34]@ == commands()[23].1@);
        } else if i == 24 {
            assert(action_names()[33]@ == commands()[24].1@);
        } else if i == 25 {
            assert(action_names()[21]@ == commands()[25].1@);
        } else if i == 26 {
            assert(action_names()[22]@ == commands()[26].1@);
        } else if i == 27 {
            assert(action_names()[23]@ == commands()[27].1@);
        } else if i == 28 {
            assert(action_names()[24]@ == commands()[28].1@);
        } else if i == 29 {
            assert(action_names()[25]@ == commands()[29].1@);
        } else if i == 30 {
            assert(action_names()[28]@ == commands()[30].1@);
        } else if i == 31 {
            assert(action_names()[26]@ == commands()[31].1@);
        } else if i == 32 {
            assert(action_names()[27]@ == commands()[32].1@);
        } else if i == 33 {
            assert(action_names()[20]@ == commands()[33].1@);
        } else if i == 34 {
            assert(action_names()[30]@ == commands()[34].1@);
        } else if i == 35 {
            assert(action_names()[31]@ == commands()[35].1@);
        } else if i == 36 {
            assert(action_names()[85]@ == commands()[36].1@);
        } else if i == 37 {
            assert(action_names()[86]@ == commands()[37].1@);
        } else if i == 38 {
            assert(action_names()[15]@ == commands()[38].1@);
        } else if i == 39 {
            assert(action_names()[14]@ == commands()[39].1@);
        }
    }
}

/// What `str::to_lowercase` makes of a text: Unicode's lowercase mapping.
pub uninterp spec fn lowercased(s: Seq<char>) -> Seq<char>;

/// `str::to_lowercase`. The contract names the result and says nothing more
/// of it.
#[verifier::external_body]
pub(crate) fn to_lowercase(s: &str) -> (r: String)
    ensures
        r@ == lowercased(s@),
{
    s.to_lowercase()
}

/// The commands whose label holds `query`, case aside: a substring rather
/// than a fuzzy match, because a short list wants a stable order more than
/// a clever one.
pub open spec fn matching(labels: Seq<(&'static str, &'static str)>, query: Seq<char>) -> Seq<usize>
    decreases labels.len(),
{
    if labels.len() == 0 {
        Seq::empty()
    } else {
        let init = matching(labels.drop_last(), query);
        if contains_text(lowercased(labels.last().0@), lowercased(query)) {
            init.push((labels.len() - 1) as usize)
        } else {
            init
        }
    }
}

/// Indices of the commands that match `query`, in list order.
pub fn filter_commands(query: &str) -> (r: Vec<usize>)
    ensures
        r@ == matching(commands(), query@),
{
    let list = command_list();
    let q = to_lowercase(query);
    let mut out: Vec<usize> = Vec::new();
    let mut i: usize = 0;
    assert(list@.take(0) =~= Seq::<(&'static str, &'static str)>::empty());
    while i < list.len()
        invariant
            i <= list@.len(),
            list@ == commands(),
            q@ == lowercased(query@),
            out@ == matching(list@.take(i as int), query@),
        decreases list@.len() - i,
    {
        let label = to_lowercase(list[i].0);
        proof {
            let t = list@.take(i + 1);
            assert(t.drop_last() =~= list@.take(i as int));
            assert(t.last() == list@[i as int]);
        }
        if crate::network::contains(label.as_str(), q.as_str()) {
            out.push(i);
        }
        i += 1;
    }
    assert(list@.take(list@.len() as int) =~= list@);
    out
}

/// A group of the shortcut sheet: its title and its `(keys, action)` rows.
pub type HelpGroup = (String, Vec<(String, String)>);

pub open spec fn rows_view(rows: Seq<(String, String)>) -> Seq<(Seq<char>, Seq<char>)> {
    Seq::new(rows.len(), |i: int| (rows[i].0@, rows[i].1@))
}

pub open spec fn groups_view(groups: Seq<HelpGroup>) -> Seq<(Seq<char>, Seq<(Seq<char>, Seq<char>)>)> {
    Seq::new(groups.len(), |i: int| (groups[i].0@, rows_view(groups[i].1@)))
}

/// The rows whose keys or action hold `q` (already lower-cased), case aside.
pub open spec fn rows_matching(rows: Seq<(Seq<char>, Seq<char>)>, q: Seq<char>) -> Seq<usize>
    decreases rows.len(),
{
    if rows.len() == 0 {
        Seq::empty()
    } else {
        let init = rows_matching(rows.drop_last(), q);
        if contains_text(lowercased(rows.last().0), q) || contains_text(lowercased(rows.last().1), q) {
            init.push((rows.len() - 1) as usize)
        } else {
            init
        }
    }
}

/// What a group keeps: everything when the query is empty or its title
/// holds it, otherwise the rows that do.
pub open spec fn group_keeps(title: Seq<char>, rows: Seq<(Seq<char>, Seq<char>)>, q: Seq<char>) -> Seq<usize> {
    if q.len() == 0 || contains_text(lowercased(title), q) {
        Seq::new(rows.len(), |i: int| i as usize)
    } else {
        rows_matching(rows, q)
    }
}

/// The shortcut sheet under the query `q` (trimmed, lower-cased): each
/// group that keeps anything, with what it keeps, in order.
pub open spec fn help_sheet(groups: Seq<(Seq<char>, Seq<(Seq<char>, Seq<char>)>)>, q: Seq<char>) -> Seq<(usize, Seq<usize>)>
    decreases groups.len(),
{
    if groups.len() == 0 {
        Seq::empty()
    } else {
        let init = help_sheet(groups.drop_last(), q);
        let kept = group_keeps(groups.last().0, groups.last().1, q);
        if kept.len() > 0 { init.push(((groups.len() - 1) as usize, kept)) } else { init }
    }
}

pub open spec fn sheet_view(r: Seq<(usize, Vec<usize>)>) -> Seq<(usize, Seq<usize>)> {
    Seq::new(r.len(), |i: int| (r[i].0, r[i].1@))
}

/// The rows of one group to show under the lower-cased query `q`.
fn keep_rows(title: &str, rows: &Vec<(String, String)>, q: &str) -> (r: Vec<usize>)
    ensures
        r@ == group_keeps(title@, rows_view(rows@), q@),
{
    let ghost rv = rows_view(rows@);
    let mut out: Vec<usize> = Vec::new();
    let everything = q.unicode_len() == 0 || crate::network::contains(to_lowercase(title).as_str(), q);
    let mut i: usize = 0;
    assert(rv.take(0) =~= Seq::<(Seq<char>, Seq<char>)>::empty());
    while i < rows.len()
        invariant
            i <= rows@.len(),
            rv == rows_view(rows@),
            everything == (q@.len() == 0 || contains_text(lowercased(title@), q@)),
            everything ==> out@ == Seq::new(i as nat, |k: int| k as usize),
            !everything ==> out@ == rows_matching(rv.take(i as int), q@),
        decreases rows@.len() - i,
    {
        proof {
            let t = rv.take(i + 1);
            assert(t.drop_last() =~= rv.take(i as int));
            assert(t.last() == rv[i as int]);
            assert(rv[i as int] == (rows@[i as int].0@, rows@[i as int].1@));
        }
        if everything {
            out.push(i);
            assert(out@ =~= Seq::new((i + 1) as nat, |k: int| k as usize));
        } else {
            let keys = to_lowercase(rows[i].0.as_str());
            let action = to_lowercase(rows[i].1.as_str());
            if crate::network::contains(keys.as_str(), q) || crate::network::contains(action.as_str(), q) {
                out.push(i);
            }
        }
        i += 1;
    }
    assert(rv.take(rows@.len() as int) =~= rv);
    out
}

/// The shortcut sheet filtered by what was typed: a group survives whole
/// when its title holds the query, case aside; otherwise it keeps only the
/// rows whose keys or action do, and a group that keeps nothing goes.
/// Returns each surviving group's index with the indices of its rows.
pub fn filter_help(groups: &Vec<HelpGroup>, query: &str) -> (r: Vec<(usize, Vec<usize>)>)
    ensures
        sheet_view(r@) == help_sheet(groups_view(groups@), lowercased(trim_ws(query@))),
{
    let cs = chars_of(query);
    assert(cs@.subrange(0, cs@.len() as int) =~= cs@);
    let (a, b) = trim_bounds(&cs, 0, cs.len());
    let trimmed = string_of(&cs, a, b);
    let q = to_lowercase(trimmed.as_str());
    let ghost gv = groups_view(groups@);
    let mut out: Vec<(usize, Vec<usize>)> = Vec::new();
    let mut i: usize = 0;
    assert(gv.take(0) =~= Seq::<(Seq<char>, Seq<(Seq<char>, Seq<char>)>)>::empty());
    assert(sheet_view(out@) =~= Seq::<(usize, Seq<usize>)>::empty());
    while i < groups.len()
        invariant
            i <= groups@.len(),
            gv == groups_view(groups@),
            q@ == lowercased(trim_ws(query@)),
            sheet_view(out@) == help_sheet(gv.take(i as int), q@),
        decreases groups@.len() - i,
    {
        let kept = keep_rows(groups[i].0.as_str(), &groups[i].1, q.as_str());
        proof {
            let t = gv.take(i + 1);
            assert(t.drop_last() =~= gv.take(i as int));
            assert(t.last() == gv[i as int]);
        }
        if kept.len() > 0 {
            let ghost before = out@;
            out.push((i, kept));
            assert(sheet_view(out@) =~= sheet_view(before).push((i, kept@)));
        }
        i += 1;
    }
    assert(gv.take(groups@.len() as int) =~= gv);
    out
}

} // verus!
