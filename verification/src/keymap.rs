//! The rebindable keymap: defaults as data, `keymap.toml` layered on top.
//!
//! The merge rule is the simplest one that cannot surprise: naming an action
//! in a section replaces every default key that action had in that section.
//! A string binds one key, a list binds several, an empty list unbinds. What
//! a user did not name keeps its defaults, so a one-line file changes one
//! thing.
//!
//! A file problem never stops the app: the defaults stand, and the problem
//! is reported in [`Keymap::problems`], in the file's own words.

use vstd::prelude::*;
use std::collections::BTreeMap;
use crate::diff::{trim_bounds, trim_ws};
use crate::natural::{lemma_lex_equal, lemma_lex_flip, lex, lex_compare, Order};
use crate::split::{first_index, lemma_first_index_at, lines_of, split_lines, views};
use crate::text::{chars_equal, chars_of, concat, concat3, push_char, str_eq, string_of};

verus! {

/// Where a binding applies: a key context, or everywhere.
#[derive(Debug, Clone, Copy, PartialEq, Eq, Structural)]
pub enum Context {
    Global,
    Listing,
    Sidebar,
}

pub open spec fn section_name(c: Context) -> Seq<char> {
    match c {
        Context::Global => "global"@,
        Context::Listing => "listing"@,
        Context::Sidebar => "sidebar"@,
    }
}

impl Context {
    /// The `keymap.toml` section name.
    pub fn section(self) -> (r: &'static str)
        ensures
            r@ == section_name(self),
    {
        match self {
            Context::Global => "global",
            Context::Listing => "listing",
            Context::Sidebar => "sidebar",
        }
    }
}

/// One effective binding.
#[derive(Debug, PartialEq, Eq)]
pub struct Binding {
    pub keys: String,
    pub action: &'static str,
    pub context: Context,
}

impl Clone for Binding {
    fn clone(&self) -> (r: Self)
        ensures
            r == *self,
    {
        Binding { keys: self.keys.clone(), action: self.action, context: self.context }
    }
}

#[verifier::opaque]
pub open spec fn default_rows_0() -> Seq<(&'static str, &'static str, Context)> {
    seq![
        ("move_down", "j", Context::Sidebar),
        ("move_down", "down", Context::Sidebar),
        ("move_up", "k", Context::Sidebar),
        ("move_up", "up", Context::Sidebar),
        ("move_first", "g", Context::Sidebar),
        ("move_last", "shift-g", Context::Sidebar),
        ("open", "enter", Context::Sidebar),
        ("open", "l", Context::Sidebar),
        ("open", "right", Context::Sidebar),
        ("unpin_selected", "delete", Context::Sidebar),
        ("move_pin_up", "alt-up", Context::Sidebar),
        ("move_pin_up", "alt-k", Context::Sidebar),
        ("move_pin_down", "alt-down", Context::Sidebar),
        ("move_pin_down", "alt-j", Context::Sidebar),
        ("quit", "q", Context::Sidebar)
    ]
}

fn push_rows_0(t: &mut Vec<(&'static str, &'static str, Context)>)
    ensures
        final(t)@ == old(t)@ + default_rows_0(),
{
    reveal(default_rows_0);
    let ghost start = t@;
    t.push(("move_down", "j", Context::Sidebar));
    t.push(("move_down", "down", Context::Sidebar));
    t.push(("move_up", "k", Context::Sidebar));
    t.push(("move_up", "up", Context::Sidebar));
    t.push(("move_first", "g", Context::Sidebar));
    t.push(("move_last", "shift-g", Context::Sidebar));
    t.push(("open", "enter", Context::Sidebar));
    t.push(("open", "l", Context::Sidebar));
    t.push(("open", "right", Context::Sidebar));
    t.push(("unpin_selected", "delete", Context::Sidebar));
    t.push(("move_pin_up", "alt-up", Context::Sidebar));
    t.push(("move_pin_up", "alt-k", Context::Sidebar));
    t.push(("move_pin_down", "alt-down", Context::Sidebar));
    t.push(("move_pin_down", "alt-j", Context::Sidebar));
    t.push(("quit", "q", Context::Sidebar));
    assert(t@ =~= start + default_rows_0());
}

#[verifier::opaque]
pub open spec fn default_rows_1() -> Seq<(&'static str, &'static str, Context)> {
    seq![
        ("show_help", "?", Context::Sidebar),
        ("start_search", "/", Context::Sidebar),
        ("open_terminal", "t", Context::Sidebar),
        ("focus_next", "tab", Context::Global),
        ("focus_previous", "shift-tab", Context::Global),
        ("pin_current", "ctrl-p", Context::Global),
        ("new_tab", "ctrl-t", Context::Global),
        ("close_tab", "ctrl-w", Context::Global),
        ("next_tab", "ctrl-tab", Context::Global),
        ("previous_tab", "ctrl-shift-tab", Context::Global),
        ("new_workspace", "ctrl-n", Context::Global),
        ("delete_workspace", "ctrl-shift-w", Context::Global),
        ("move_tab_to_next_workspace", "ctrl-shift-m", Context::Global),
        ("rename_workspace", "ctrl-shift-r", Context::Global),
        ("dismiss", "escape", Context::Global)
    ]
}

fn push_rows_1(t: &mut Vec<(&'static str, &'static str, Context)>)
    ensures
        final(t)@ == old(t)@ + default_rows_1(),
{
    reveal(default_rows_1);
    let ghost start = t@;
    t.push(("show_help", "?", Context::Sidebar));
    t.push(("start_search", "/", Context::Sidebar));
    t.push(("open_terminal", "t", Context::Sidebar));
    t.push(("focus_next", "tab", Context::Global));
    t.push(("focus_previous", "shift-tab", Context::Global));
    t.push(("pin_current", "ctrl-p", Context::Global));
    t.push(("new_tab", "ctrl-t", Context::Global));
    t.push(("close_tab", "ctrl-w", Context::Global));
    t.push(("next_tab", "ctrl-tab", Context::Global));
    t.push(("previous_tab", "ctrl-shift-tab", Context::Global));
    t.push(("new_workspace", "ctrl-n", Context::Global));
    t.push(("delete_workspace", "ctrl-shift-w", Context::Global));
    t.push(("move_tab_to_next_workspace", "ctrl-shift-m", Context::Global));
    t.push(("rename_workspace", "ctrl-shift-r", Context::Global));
    t.push(("dismiss", "escape", Context::Global));
    assert(t@ =~= start + default_rows_1());
}

#[verifier::opaque]
pub open spec fn default_rows_2() -> Seq<(&'static str, &'static str, Context)> {
    seq![
        ("toggle_left_panel", "ctrl-b", Context::Global),
        ("toggle_right_panel", "ctrl-shift-b", Context::Global),
        ("edit_path", "ctrl-l", Context::Global),
        ("switch_branch", "ctrl-shift-g", Context::Global),
        ("server_menu", "ctrl-s", Context::Global),
        ("server_list", "ctrl-shift-s", Context::Global),
        ("add_network", "ctrl-shift-n", Context::Global),
        ("command_palette", "ctrl-k", Context::Global),
        ("quit", "ctrl-q", Context::Global),
        ("move_down", "down", Context::Global),
        ("move_up", "up", Context::Global),
        ("show_help", "?", Context::Listing),
        ("start_search", "/", Context::Listing),
        ("move_down", "j", Context::Listing),
        ("move_down", "down", Context::Listing)
    ]
}

fn push_rows_2(t: &mut Vec<(&'static str, &'static str, Context)>)
    ensures
        final(t)@ == old(t)@ + default_rows_2(),
{
    reveal(default_rows_2);
    let ghost start = t@;
    t.push(("toggle_left_panel", "ctrl-b", Context::Global));
    t.push(("toggle_right_panel", "ctrl-shift-b", Context::Global));
    t.push(("edit_path", "ctrl-l", Context::Global));
    t.push(("switch_branch", "ctrl-shift-g", Context::Global));
    t.push(("server_menu", "ctrl-s", Context::Global));
    t.push(("server_list", "ctrl-shift-s", Context::Global));
    t.push(("add_network", "ctrl-shift-n", Context::Global));
    t.push(("command_palette", "ctrl-k", Context::Global));
    t.push(("quit", "ctrl-q", Context::Global));
    t.push(("move_down", "down", Context::Global));
    t.push(("move_up", "up", Context::Global));
    t.push(("show_help", "?", Context::Listing));
    t.push(("start_search", "/", Context::Listing));
    t.push(("move_down", "j", Context::Listing));
    t.push(("move_down", "down", Context::Listing));
    assert(t@ =~= start + default_rows_2());
}

#[verifier::opaque]
pub open spec fn default_rows_3() -> Seq<(&'static str, &'static str, Context)> {
    seq![
        ("move_up", "k", Context::Listing),
        ("move_up", "up", Context::Listing),
        ("move_first", "g", Context::Listing),
        ("move_first", "home", Context::Listing),
        ("move_last", "shift-g", Context::Listing),
        ("move_last", "end", Context::Listing),
        ("page_down", "ctrl-d", Context::Listing),
        ("page_down", "pagedown", Context::Listing),
        ("page_up", "ctrl-u", Context::Listing),
        ("page_up", "pageup", Context::Listing),
        ("open", "enter", Context::Listing),
        ("open", "l", Context::Listing),
        ("open", "right", Context::Listing),
        ("go_up", "backspace", Context::Listing),
        ("go_up", "h", Context::Listing)
    ]
}

fn push_rows_3(t: &mut Vec<(&'static str, &'static str, Context)>)
    ensures
        final(t)@ == old(t)@ + default_rows_3(),
{
    reveal(default_rows_3);
    let ghost start = t@;
    t.push(("move_up", "k", Context::Listing));
    t.push(("move_up", "up", Context::Listing));
    t.push(("move_first", "g", Context::Listing));
    t.push(("move_first", "home", Context::Listing));
    t.push(("move_last", "shift-g", Context::Listing));
    t.push(("move_last", "end", Context::Listing));
    t.push(("page_down", "ctrl-d", Context::Listing));
    t.push(("page_down", "pagedown", Context::Listing));
    t.push(("page_up", "ctrl-u", Context::Listing));
    t.push(("page_up", "pageup", Context::Listing));
    t.push(("open", "enter", Context::Listing));
    t.push(("open", "l", Context::Listing));
    t.push(("open", "right", Context::Listing));
    t.push(("go_up", "backspace", Context::Listing));
    t.push(("go_up", "h", Context::Listing));
    assert(t@ =~= start + default_rows_3());
}

#[verifier::opaque]
pub open spec fn default_rows_4() -> Seq<(&'static str, &'static str, Context)> {
    seq![
        ("go_up", "left", Context::Listing),
        ("go_back", "alt-left", Context::Listing),
        ("go_forward", "alt-right", Context::Listing),
        ("toggle_hidden", "ctrl-h", Context::Listing),
        ("refresh", "f5", Context::Listing),
        ("refresh", "ctrl-r", Context::Listing),
        ("quit", "q", Context::Listing),
        ("toggle_preview", "space", Context::Listing),
        ("open_terminal", "t", Context::Listing),
        ("ask_agent", "a", Context::Listing),
        ("share_entry", "s", Context::Listing),
        ("copy_entry", "ctrl-c", Context::Listing),
        ("cut_entry", "ctrl-x", Context::Listing),
        ("copy_path", "ctrl-shift-c", Context::Listing),
        ("paste_here", "ctrl-v", Context::Listing)
    ]
}

fn push_rows_4(t: &mut Vec<(&'static str, &'static str, Context)>)
    ensures
        final(t)@ == old(t)@ + default_rows_4(),
{
    reveal(default_rows_4);
    let ghost start = t@;
    t.push(("go_up", "left", Context::Listing));
    t.push(("go_back", "alt-left", Context::Listing));
    t.push(("go_forward", "alt-right", Context::Listing));
    t.push(("toggle_hidden", "ctrl-h", Context::Listing));
    t.push(("refresh", "f5", Context::Listing));
    t.push(("refresh", "ctrl-r", Context::Listing));
    t.push(("quit", "q", Context::Listing));
    t.push(("toggle_preview", "space", Context::Listing));
    t.push(("open_terminal", "t", Context::Listing));
    t.push(("ask_agent", "a", Context::Listing));
    t.push(("share_entry", "s", Context::Listing));
    t.push(("copy_entry", "ctrl-c", Context::Listing));
    t.push(("cut_entry", "ctrl-x", Context::Listing));
    t.push(("copy_path", "ctrl-shift-c", Context::Listing));
    t.push(("paste_here", "ctrl-v", Context::Listing));
    assert(t@ =~= start + default_rows_4());
}

#[verifier::opaque]
pub open spec fn default_rows_5() -> Seq<(&'static str, &'static str, Context)> {
    seq![
        ("delete_entry", "delete", Context::Listing),
        ("compress_entry", "z", Context::Listing),
        ("move_entry", "m", Context::Listing),
        ("create_file", "n", Context::Listing),
        ("entry_menu", "shift-f10", Context::Listing),
        ("extend_down", "shift-down", Context::Listing),
        ("extend_down", "shift-j", Context::Listing),
        ("extend_up", "shift-up", Context::Listing),
        ("extend_up", "shift-k", Context::Listing),
        ("toggle_select", "insert", Context::Listing),
        ("select_all", "ctrl-a", Context::Listing)
    ]
}

fn push_rows_5(t: &mut Vec<(&'static str, &'static str, Context)>)
    ensures
        final(t)@ == old(t)@ + default_rows_5(),
{
    reveal(default_rows_5);
    let ghost start = t@;
    t.push(("delete_entry", "delete", Context::Listing));
    t.push(("compress_entry", "z", Context::Listing));
    t.push(("move_entry", "m", Context::Listing));
    t.push(("create_file", "n", Context::Listing));
    t.push(("entry_menu", "shift-f10", Context::Listing));
    t.push(("extend_down", "shift-down", Context::Listing));
    t.push(("extend_down", "shift-j", Context::Listing));
    t.push(("extend_up", "shift-up", Context::Listing));
    t.push(("extend_up", "shift-k", Context::Listing));
    t.push(("toggle_select", "insert", Context::Listing));
    t.push(("select_all", "ctrl-a", Context::Listing));
    assert(t@ =~= start + default_rows_5());
}

/// The default bindings, in order: later bindings win a conflict.
pub open spec fn default_table() -> Seq<(&'static str, &'static str, Context)> {
    default_rows_0() + default_rows_1() + default_rows_2() + default_rows_3() + default_rows_4() + default_rows_5()
}

/// Actions that ship with no key: reachable from the palette, bindable from
/// `keymap.toml`.
pub open spec fn unbound_actions() -> Seq<&'static str> {
    seq!["toggle_button_labels"]
}

/// The default bindings as `(action, keys, context)`.
pub fn default_bindings() -> (t: Vec<(&'static str, &'static str, Context)>)
    ensures
        t@ == default_table(),
{
    let mut t: Vec<(&'static str, &'static str, Context)> = Vec::new();
    push_rows_0(&mut t);
    push_rows_1(&mut t);
    push_rows_2(&mut t);
    push_rows_3(&mut t);
    push_rows_4(&mut t);
    push_rows_5(&mut t);
    assert(t@ =~= default_table());
    t
}

/// The action names that ship with no key.
pub fn unbound() -> (u: Vec<&'static str>)
    ensures
        u@ == unbound_actions(),
{
    let mut u: Vec<&'static str> = Vec::new();
    u.push("toggle_button_labels");
    assert(u@ =~= unbound_actions());
    u
}

/// Every bindable action name, defaults first: membership is what makes a
/// `keymap.toml` name valid.
pub open spec fn action_names() -> Seq<&'static str> {
    Seq::new(default_table().len(), |i: int| default_table()[i].0) + unbound_actions()
}

pub open spec fn is_known(name: Seq<char>) -> bool {
    exists|i: int| 0 <= i < action_names().len() && (#[trigger] action_names()[i])@ == name
}

pub open spec fn sorted_names(s: Seq<&'static str>) -> bool {
    forall|k: int| 0 <= k < s.len() - 1 ==> #[trigger] lex(s[k]@, s[k + 1]@) == Order::Less
}

pub open spec fn has_name(s: Seq<&'static str>, x: Seq<char>) -> bool {
    exists|k: int| 0 <= k < s.len() && (#[trigger] s[k])@ == x
}

/// Put `x` into the sorted run `out`, unless it is there already.
fn insert_name(out: &mut Vec<&'static str>, x: &'static str)
    requires
        sorted_names(old(out)@),
    ensures
        sorted_names(final(out)@),
        has_name(final(out)@, x@),
        forall|k: int| 0 <= k < old(out)@.len() ==> has_name(final(out)@, (#[trigger] old(out)@[k])@),
        forall|k: int| 0 <= k < final(out)@.len() ==> (#[trigger] final(out)@[k])@ == x@ || has_name(old(out)@, final(out)@[k]@),
{
    let xc = chars_of(x);
    let mut p = out.len();
    while p > 0 && lex_compare(&xc, &chars_of(out[p - 1])) == Order::Less
        invariant
            p <= out@.len(),
            xc@ == x@,
            forall|q: int| p <= q < out@.len() ==> lex(x@, (#[trigger] out@[q])@) == Order::Less,
        decreases p,
    {
        p -= 1;
    }
    let ghost before = out@;
    if p > 0 && chars_equal(&xc, &chars_of(out[p - 1])) {
        assert(before[p - 1]@ == x@);
        assert forall|k: int| 0 <= k < before.len() implies has_name(before, (#[trigger] before[k])@) by {
            assert(before[k]@ == before[k]@);
        }
        return;
    }
    proof {
        if p > 0 {
            lemma_lex_equal(x@, before[p - 1]@);
            lemma_lex_flip(x@, before[p - 1]@);
        }
    }
    out.insert(p, x);
    assert(out@ == before.insert(p as int, x));
    assert forall|k: int| 0 <= k < out@.len() - 1 implies #[trigger] lex(out@[k]@, out@[k + 1]@) == Order::Less by {
        if k + 1 < p {
            assert(out@[k] == before[k] && out@[k + 1] == before[k + 1]);
            assert(lex(before[k]@, before[k + 1]@) == Order::Less);
        } else if k + 1 == p {
            assert(out@[k] == before[k] && out@[k + 1] == x);
        } else if k == p {
            assert(out@[k] == x && out@[k + 1] == before[k]);
        } else {
            let q = k - 1;
            assert(out@[k] == before[q] && out@[k + 1] == before[q + 1]);
            assert(lex(before[q]@, before[q + 1]@) == Order::Less);
        }
    }
    assert(out@[p as int] == x);
    assert forall|k: int| 0 <= k < before.len() implies has_name(out@, (#[trigger] before[k])@) by {
        if k < p {
            assert(out@[k] == before[k]);
        } else {
            assert(out@[k + 1] == before[k]);
        }
    }
    assert forall|k: int| 0 <= k < out@.len() implies (#[trigger] out@[k])@ == x@ || has_name(before, out@[k]@) by {
        if k < p {
            assert(out@[k] == before[k]);
        } else if k > p {
            assert(out@[k] == before[k - 1]);
        }
    }
}

/// Every bindable action name, sorted, each once.
pub fn known_actions() -> (r: Vec<&'static str>)
    ensures
        sorted_names(r@),
        forall|k: int| 0 <= k < r@.len() ==> is_known((#[trigger] r@[k])@),
        forall|i: int| 0 <= i < action_names().len() ==> has_name(r@, (#[trigger] action_names()[i])@),
{
    let defaults = default_bindings();
    let mut names: Vec<&'static str> = Vec::new();
    let mut i: usize = 0;
    while i < defaults.len()
        invariant
            i <= defaults@.len(),
            defaults@ == default_table(),
            names@ == Seq::new(i as nat, |k: int| default_table()[k].0),
        decreases defaults@.len() - i,
    {
        names.push(defaults[i].0);
        i += 1;
        assert(names@ =~= Seq::new(i as nat, |k: int| default_table()[k].0));
    }
    let extra = unbound();
    names.push(extra[0]);
    assert(names@ =~= action_names());
    let mut out: Vec<&'static str> = Vec::new();
    let mut j: usize = 0;
    while j < names.len()
        invariant
            j <= names@.len(),
            names@ == action_names(),
            sorted_names(out@),
            forall|k: int| 0 <= k < out@.len() ==> is_known((#[trigger] out@[k])@),
            forall|i: int| 0 <= i < j ==> has_name(out@, (#[trigger] action_names()[i])@),
        decreases names@.len() - j,
    {
        let ghost before = out@;
        let x = names[j];
        insert_name(&mut out, x);
        assert(is_known(x@)) by {
            assert(action_names()[j as int] == x);
        }
        assert forall|k: int| 0 <= k < out@.len() implies is_known((#[trigger] out@[k])@) by {
            if out@[k]@ != x@ {
                let k2 = choose|k2: int| 0 <= k2 < before.len() && (#[trigger] before[k2])@ == out@[k]@;
                assert(is_known(before[k2]@));
            }
        }
        assert forall|i: int| 0 <= i < j + 1 implies has_name(out@, (#[trigger] action_names()[i])@) by {
            if i < j {
                let k2 = choose|k2: int| 0 <= k2 < before.len() && (#[trigger] before[k2])@ == action_names()[i]@;
                assert(has_name(out@, before[k2]@));
            } else {
                assert(action_names()[i] == x);
            }
        }
        j += 1;
    }
    out
}

/// A value from `keymap.toml`, as far as a binding cares: a string, a list
/// (each item a string or not), or something else.
#[derive(Debug, PartialEq, Eq)]
pub enum KeyValue {
    Str(String),
    List(Vec<Option<String>>),
    Other,
}

pub enum KeyModel {
    Str(Seq<char>),
    List(Seq<Option<Seq<char>>>),
    Other,
}

pub open spec fn opt_str(o: Option<String>) -> Option<Seq<char>> {
    match o {
        Some(s) => Some(s@),
        None => None,
    }
}

pub open spec fn key_view(v: KeyValue) -> KeyModel {
    match v {
        KeyValue::Str(s) => KeyModel::Str(s@),
        KeyValue::List(items) => KeyModel::List(Seq::new(items@.len(), |i: int| opt_str(items@[i]))),
        KeyValue::Other => KeyModel::Other,
    }
}

pub type SectionModel = (Seq<char>, Seq<(Seq<char>, KeyModel)>);

pub type KeymapFile = Result<Vec<(String, Vec<(String, KeyValue)>)>, String>;

pub open spec fn actions_view(a: Seq<(String, KeyValue)>) -> Seq<(Seq<char>, KeyModel)> {
    Seq::new(a.len(), |i: int| (a[i].0@, key_view(a[i].1)))
}

pub open spec fn sections_view(t: Seq<(String, Vec<(String, KeyValue)>)>) -> Seq<SectionModel> {
    Seq::new(t.len(), |i: int| (t[i].0@, actions_view(t[i].1@)))
}

pub open spec fn file_view(f: KeymapFile) -> Result<Seq<SectionModel>, Seq<char>> {
    match f {
        Ok(t) => Ok(sections_view(t@)),
        Err(m) => Err(m@),
    }
}

/// What `toml::from_str` reads `source` as: its sections, each with its
/// actions, in key order; or the parser's message.
pub uninterp spec fn keymap_toml(source: Seq<char>) -> Result<Seq<SectionModel>, Seq<char>>;

/// `toml::from_str` into a map of sections of actions; each value kept as
/// a [`KeyValue`], the parse error as its message. The contract names the
/// result and says nothing more of it.
#[verifier::external_body]
fn parse_keymap_toml(source: &str) -> (r: KeymapFile)
    ensures
        file_view(r) == keymap_toml(source@),
{
    let table: BTreeMap<String, BTreeMap<String, toml::Value>> = match toml::from_str(source) {
        Ok(t) => t,
        Err(e) => return Err(e.message().to_string()),
    };
    Ok(table.into_iter().map(|(s, a)| (s, a.into_iter().map(|(n, v)| (n, match v {
        toml::Value::String(k) => KeyValue::Str(k),
        toml::Value::Array(i) => KeyValue::List(i.iter().map(|x| x.as_str().map(String::from)).collect()),
        _ => KeyValue::Other,
    })).collect())).collect())
}

/// A string is one key, a list is several, an empty list unbinds; anything
/// else is not a binding.
pub open spec fn keys_of(v: KeyModel) -> Option<Seq<Seq<char>>> {
    match v {
        KeyModel::Str(k) => Some(seq![k]),
        KeyModel::List(items) => if forall|i: int| 0 <= i < items.len() ==> (#[trigger] items[i]) is Some {
            Some(Seq::new(items.len(), |i: int| items[i]->0))
        } else {
            None
        },
        KeyModel::Other => None,
    }
}

pub open spec fn strings_view(v: Seq<String>) -> Seq<Seq<char>> {
    Seq::new(v.len(), |i: int| v[i]@)
}

fn keys_of_value(value: &KeyValue) -> (r: Option<Vec<String>>)
    ensures
        match r {
            Some(keys) => keys_of(key_view(*value)) == Some(strings_view(keys@)),
            None => keys_of(key_view(*value)) is None,
        },
{
    match value {
        KeyValue::Str(k) => {
            let mut v: Vec<String> = Vec::new();
            v.push(k.clone());
            assert(strings_view(v@) =~= seq![k@]);
            Some(v)
        },
        KeyValue::List(items) => {
            let ghost m = Seq::new(items@.len(), |i: int| opt_str(items@[i]));
            let mut v: Vec<String> = Vec::new();
            let mut i: usize = 0;
            assert(key_view(*value) == KeyModel::List(m));
            while i < items.len()
                invariant
                    i <= items@.len(),
                    key_view(*value) == KeyModel::List(m),
                    m == Seq::new(items@.len(), |i: int| opt_str(items@[i])),
                    forall|j: int| 0 <= j < i ==> (#[trigger] m[j]) is Some,
                    strings_view(v@) == Seq::new(i as nat, |j: int| m[j]->0),
                decreases items@.len() - i,
            {
                match &items[i] {
                    Some(k) => {
                        assert(m[i as int] == Some(k@));
                        let ghost before = strings_view(v@);
                        v.push(k.clone());
                        assert(strings_view(v@) =~= before.push(k@));
                        assert(strings_view(v@) =~= Seq::new((i + 1) as nat, |j: int| m[j]->0));
                    },
                    None => {
                        assert(m[i as int] is None);
                        assert(!(m[i as int] is Some));
                        return None;
                    },
                }
                i += 1;
            }
            Some(v)
        },
        KeyValue::Other => None,
    }
}

pub open spec fn context_of_section(name: Seq<char>) -> Option<Context> {
    if name == "global"@ {
        Some(Context::Global)
    } else if name == "listing"@ {
        Some(Context::Listing)
    } else if name == "sidebar"@ {
        Some(Context::Sidebar)
    } else {
        None
    }
}

pub type BindingModel = (Seq<char>, Seq<char>, Context);

pub open spec fn binding_view(b: Binding) -> BindingModel {
    (b.keys@, b.action@, b.context)
}

pub open spec fn bindings_view(s: Seq<Binding>) -> Seq<BindingModel> {
    Seq::new(s.len(), |i: int| binding_view(s[i]))
}

/// `bs` without the bindings of `action` in `context`.
pub open spec fn without(bs: Seq<BindingModel>, action: Seq<char>, context: Context) -> Seq<BindingModel>
    decreases bs.len(),
{
    if bs.len() == 0 {
        Seq::empty()
    } else {
        let init = without(bs.drop_last(), action, context);
        if bs.last().1 == action && bs.last().2 == context { init } else { init.push(bs.last()) }
    }
}

/// The keymap as the merge sees it: the bindings, then the problems.
pub type KeymapModel = (Seq<BindingModel>, Seq<Seq<char>>);

/// One `name = value` line of a section for `context`.
pub open spec fn apply_action(k: KeymapModel, context: Context, name: Seq<char>, value: KeyModel) -> KeymapModel {
    if !is_known(name) {
        (k.0, k.1.push("keymap.toml: unknown action \""@ + name + "\""@))
    } else {
        match keys_of(value) {
            None => (k.0, k.1.push("keymap.toml: \""@ + name + "\" wants a key string or a list of them"@)),
            Some(keys) => (without(k.0, name, context) + Seq::new(keys.len(), |i: int| (keys[i], name, context)), k.1),
        }
    }
}

pub open spec fn apply_actions(k: KeymapModel, context: Context, actions: Seq<(Seq<char>, KeyModel)>) -> KeymapModel
    decreases actions.len(),
{
    if actions.len() == 0 {
        k
    } else {
        apply_actions(apply_action(k, context, actions[0].0, actions[0].1), context, actions.skip(1))
    }
}

pub open spec fn apply_sections(k: KeymapModel, sections: Seq<SectionModel>) -> KeymapModel
    decreases sections.len(),
{
    if sections.len() == 0 {
        k
    } else {
        let next = match context_of_section(sections[0].0) {
            None => (k.0, k.1.push("keymap.toml: unknown section ["@ + sections[0].0 + "]"@)),
            Some(c) => apply_actions(k, c, sections[0].1),
        };
        apply_sections(next, sections.skip(1))
    }
}

/// A parser message spread over lines, made one line: each line trimmed,
/// joined by single spaces.
pub open spec fn one_line(lines: Seq<Seq<char>>) -> Seq<char>
    decreases lines.len(),
{
    if lines.len() == 0 {
        Seq::empty()
    } else if lines.len() == 1 {
        trim_ws(lines[0])
    } else {
        one_line(lines.drop_last()) + seq![' '] + trim_ws(lines.last())
    }
}

/// One file's worth of overrides applied to `k`.
pub open spec fn merged(k: KeymapModel, file: Result<Seq<SectionModel>, Seq<char>>) -> KeymapModel {
    match file {
        Err(message) => (k.0, k.1.push("keymap.toml: "@ + one_line(lines_of(message)))),
        Ok(sections) => apply_sections(k, sections),
    }
}

/// The effective keymap: defaults with the user's file merged over them.
#[derive(Debug)]
pub struct Keymap {
    pub bindings: Vec<Binding>,
    /// What was wrong with the file, in the file's own words. Empty when the
    /// file is absent or clean.
    pub problems: Vec<String>,
}

pub open spec fn keymap_view(k: Keymap) -> KeymapModel {
    (bindings_view(k.bindings@), strings_view(k.problems@))
}

pub open spec fn default_model() -> Seq<BindingModel> {
    Seq::new(default_table().len(), |i: int| (default_table()[i].1@, default_table()[i].0@, default_table()[i].2))
}

/// Append `cs[a..b]` to `out`.
fn append_range(out: &mut String, cs: &Vec<char>, a: usize, b: usize)
    requires
        a <= b <= cs@.len(),
    ensures
        final(out)@ == old(out)@ + cs@.subrange(a as int, b as int),
{
    let mut k = a;
    let ghost base = out@;
    while k < b
        invariant
            a <= k <= b <= cs@.len(),
            out@ == base + cs@.subrange(a as int, k as int),
        decreases b - k,
    {
        push_char(out, cs[k]);
        k += 1;
        assert(out@ =~= base + cs@.subrange(a as int, k as int));
    }
}

/// The last part of a message: `text`, each of its lines trimmed and joined.
fn join_lines(text: &str) -> (r: String)
    ensures
        r@ == one_line(lines_of(text@)),
{
    let cs = chars_of(text);
    let ls = split_lines(&cs);
    let ghost all = views(ls@);
    let mut out = String::new();
    let mut i: usize = 0;
    assert(all.take(0) =~= Seq::<Seq<char>>::empty());
    while i < ls.len()
        invariant
            i <= ls@.len(),
            all == views(ls@),
            out@ == one_line(all.take(i as int)),
        decreases ls@.len() - i,
    {
        let l = &ls[i];
        assert(l@.subrange(0, l@.len() as int) =~= l@);
        let (a, b) = trim_bounds(l, 0, l.len());
        let ghost base = out@;
        if i > 0 {
            push_char(&mut out, ' ');
        }
        append_range(&mut out, l, a, b);
        proof {
            let t = all.take(i + 1);
            assert(t.drop_last() =~= all.take(i as int));
            assert(t.last() == l@);
            if i == 0 {
                assert(out@ =~= trim_ws(l@));
            } else {
                assert(out@ =~= base + seq![' '] + trim_ws(l@));
            }
        }
        i += 1;
    }
    assert(all.take(ls@.len() as int) =~= all);
    out
}

impl Keymap {
    /// The defaults, and no problems.
    pub fn defaults() -> (k: Keymap)
        ensures
            keymap_view(k) == (default_model(), Seq::<Seq<char>>::empty()),
    {
        let table = default_bindings();
        let mut bindings: Vec<Binding> = Vec::new();
        let mut i: usize = 0;
        while i < table.len()
            invariant
                i <= table@.len(),
                table@ == default_table(),
                bindings_view(bindings@) == default_model().take(i as int),
            decreases table@.len() - i,
        {
            let (action, keys, context) = table[i];
            let ghost before = bindings_view(bindings@);
            bindings.push(Binding { keys: String::from_str(keys), action, context });
            assert(bindings_view(bindings@) =~= before.push(default_model()[i as int]));
            assert(default_model().take(i + 1) =~= default_model().take(i as int).push(default_model()[i as int]));
            i += 1;
            assert(bindings_view(bindings@) =~= default_model().take(i as int));
        }
        assert(default_model().take(table@.len() as int) =~= default_model());
        let k = Keymap { bindings, problems: Vec::new() };
        assert(strings_view(k.problems@) =~= Seq::<Seq<char>>::empty());
        k
    }

    fn push_problem(&mut self, message: String)
        ensures
            final(self).bindings@ == old(self).bindings@,
            strings_view(final(self).problems@) == strings_view(old(self).problems@).push(message@),
    {
        let ghost before = strings_view(self.problems@);
        self.problems.push(message);
        assert(strings_view(self.problems@) =~= before.push(message@));
    }

    /// Bind `action` in `context` to exactly `keys`: its other keys there go,
    /// and these come in at the end, which gives them precedence.
    fn rebind(&mut self, action: &'static str, context: Context, keys: Vec<String>)
        ensures
            final(self).problems@ == old(self).problems@,
            bindings_view(final(self).bindings@) == without(bindings_view(old(self).bindings@), action@, context) + Seq::new(keys@.len(), |i: int| (keys@[i]@, action@, context)),
    {
        let ghost bv = bindings_view(self.bindings@);
        let mut kept: Vec<Binding> = Vec::new();
        let mut i: usize = 0;
        assert(bv.take(0) =~= Seq::<BindingModel>::empty());
        while i < self.bindings.len()
            invariant
                i <= self.bindings@.len(),
                bv == bindings_view(self.bindings@),
                bindings_view(kept@) == without(bv.take(i as int), action@, context),
            decreases self.bindings@.len() - i,
        {
            let b = &self.bindings[i];
            let ghost t = bv.take(i + 1);
            assert(t.drop_last() =~= bv.take(i as int));
            assert(t.last() == binding_view(*b));
            if !(str_eq(b.action, action) && b.context == context) {
                let ghost before = bindings_view(kept@);
                kept.push(b.clone());
                assert(bindings_view(kept@) =~= before.push(binding_view(*b)));
            }
            i += 1;
        }
        assert(bv.take(self.bindings@.len() as int) =~= bv);
        let ghost base = bindings_view(kept@);
        let mut j: usize = 0;
        while j < keys.len()
            invariant
                j <= keys@.len(),
                bindings_view(kept@) == base + Seq::new(j as nat, |i: int| (keys@[i]@, action@, context)),
            decreases keys@.len() - j,
        {
            let ghost before = bindings_view(kept@);
            kept.push(Binding { keys: keys[j].clone(), action, context });
            assert(bindings_view(kept@) =~= before.push((keys@[j as int]@, action@, context)));
            j += 1;
            assert(bindings_view(kept@) =~= base + Seq::new(j as nat, |i: int| (keys@[i]@, action@, context)));
        }
        self.bindings = kept;
    }

    /// The known action called `name`, as the name the binder knows.
    fn known_name(name: &str) -> (r: Option<&'static str>)
        ensures
            match r {
                Some(a) => is_known(name@) && a@ == name@,
                None => !is_known(name@),
            },
    {
        let known = known_actions();
        let mut i: usize = 0;
        while i < known.len()
            invariant
                i <= known@.len(),
                forall|j: int| 0 <= j < i ==> (#[trigger] known@[j])@ != name@,
                forall|k: int| 0 <= k < known@.len() ==> is_known((#[trigger] known@[k])@),
                forall|k: int| 0 <= k < action_names().len() ==> has_name(known@, (#[trigger] action_names()[k])@),
            decreases known@.len() - i,
        {
            if str_eq(known[i], name) {
                assert(is_known(known@[i as int]@));
                return Some(known[i]);
            }
            i += 1;
        }
        proof {
            if is_known(name@) {
                let j = choose|j: int| 0 <= j < action_names().len() && (#[trigger] action_names()[j])@ == name@;
                assert(has_name(known@, action_names()[j]@));
            }
        }
        None
    }

    /// Apply a file already read by the TOML parser: its sections and
    /// their actions, or the parser's complaint.
    pub fn merge_file(&mut self, file: KeymapFile)
        ensures
            keymap_view(*final(self)) == merged(keymap_view(*old(self)), file_view(file)),
    {
        match file {
            Err(message) => {
                let line = join_lines(message.as_str());
                self.push_problem(concat("keymap.toml: ", line.as_str()));
            },
            Ok(table) => {
                let ghost sv = sections_view(table@);
                let mut s: usize = 0;
                assert(sv.skip(0) =~= sv);
                while s < table.len()
                    invariant
                        s <= table@.len(),
                        sv == sections_view(table@),
                        merged(keymap_view(*old(self)), file_view(Ok(table))) == apply_sections(keymap_view(*self), sv.skip(s as int)),
                    decreases table@.len() - s,
                {
                    let (section, actions) = &table[s];
                    assert(sv.skip(s as int)[0] == sv[s as int]);
                    assert(sv.skip(s as int).skip(1) =~= sv.skip(s + 1));
                    let context = if str_eq(section.as_str(), "global") {
                        Some(Context::Global)
                    } else if str_eq(section.as_str(), "listing") {
                        Some(Context::Listing)
                    } else if str_eq(section.as_str(), "sidebar") {
                        Some(Context::Sidebar)
                    } else {
                        None
                    };
                    match context {
                        None => {
                            self.push_problem(concat3("keymap.toml: unknown section [", section.as_str(), "]"));
                        },
                        Some(c) => {
                            self.merge_section(c, actions);
                        },
                    }
                    s += 1;
                }
            },
        }
    }

    fn merge_section(&mut self, context: Context, actions: &Vec<(String, KeyValue)>)
        ensures
            keymap_view(*final(self)) == apply_actions(keymap_view(*old(self)), context, actions_view(actions@)),
    {
        let ghost av = actions_view(actions@);
        let mut i: usize = 0;
        assert(av.skip(0) =~= av);
        while i < actions.len()
            invariant
                i <= actions@.len(),
                av == actions_view(actions@),
                apply_actions(keymap_view(*old(self)), context, av) == apply_actions(keymap_view(*self), context, av.skip(i as int)),
            decreases actions@.len() - i,
        {
            let (name, value) = &actions[i];
            assert(av.skip(i as int)[0] == av[i as int]);
            assert(av.skip(i as int).skip(1) =~= av.skip(i + 1));
            match Self::known_name(name.as_str()) {
                None => {
                    self.push_problem(concat3("keymap.toml: unknown action \"", name.as_str(), "\""));
                },
                Some(action) => {
                    match keys_of_value(value) {
                        None => {
                            self.push_problem(concat3("keymap.toml: \"", name.as_str(), "\" wants a key string or a list of them"));
                        },
                        Some(keys) => {
                            let ghost kv = strings_view(keys@);
                            self.rebind(action, context, keys);
                            assert(Seq::new(kv.len(), |j: int| (kv[j], name@, context)) =~= Seq::new(keys@.len(), |j: int| (keys@[j]@, action@, context)));
                        },
                    }
                },
            }
            i += 1;
        }
    }

    /// Apply one `keymap.toml`'s worth of overrides.
    pub fn merge(&mut self, source: &str)
        ensures
            keymap_view(*final(self)) == merged(keymap_view(*old(self)), keymap_toml(source@)),
    {
        let file = parse_keymap_toml(source);
        self.merge_file(file);
    }

    /// The keymap from what reading `keymap.toml` gave: `Ok(None)` when there
    /// is no file (the defaults), `Err` when it could not be read (the
    /// defaults and that problem), else the file merged over the defaults.
    pub fn load(read: Result<Option<String>, String>) -> (k: Keymap)
        ensures
            match read {
                Ok(None) => keymap_view(k) == (default_model(), Seq::<Seq<char>>::empty()),
                Err(e) => keymap_view(k) == (default_model(), seq!["keymap.toml: "@ + e@]),
                Ok(Some(source)) => keymap_view(k) == merged((default_model(), Seq::<Seq<char>>::empty()), keymap_toml(source@)),
            },
    {
        let mut keymap = Self::defaults();
        match read {
            Ok(None) => {},
            Err(e) => {
                keymap.push_problem(concat("keymap.toml: ", e.as_str()));
                assert(seq!["keymap.toml: "@ + e@] =~= Seq::<Seq<char>>::empty().push("keymap.toml: "@ + e@));
            },
            Ok(Some(source)) => keymap.merge(source.as_str()),
        }
        keymap
    }
}

/// `keys.split('-')`: the parts between dashes, empty ones kept.
pub open spec fn dash_parts(s: Seq<char>) -> Seq<Seq<char>>
    decreases s.len(),
{
    let i = first_index(s, '-');
    if i < 0 || i >= s.len() {
        seq![s]
    } else {
        seq![s.take(i)] + dash_parts(s.skip(i + 1))
    }
}

/// One part of a key as the help sheet writes it; `last` says whether it is
/// the key itself rather than a modifier.
pub open spec fn pretty_part(p: Seq<char>, last: bool) -> Seq<char> {
    if p.len() == 0 && last {
        seq!['-']
    } else if p == "ctrl"@ && !last {
        seq!['^']
    } else if p == "alt"@ && !last {
        seq!['\u{2325}']
    } else if p == "shift"@ && !last {
        seq!['\u{21e7}']
    } else if (p == "cmd"@ || p == "super"@) && !last {
        seq!['\u{2318}']
    } else if p == "enter"@ {
        seq!['\u{23ce}']
    } else if p == "escape"@ {
        seq!['e', 's', 'c']
    } else if p == "backspace"@ {
        seq!['\u{232b}']
    } else if p == "delete"@ {
        seq!['\u{2326}']
    } else if p == "tab"@ {
        seq!['\u{21e5}']
    } else if p == "up"@ {
        seq!['\u{2191}']
    } else if p == "down"@ {
        seq!['\u{2193}']
    } else if p == "left"@ {
        seq!['\u{2190}']
    } else if p == "right"@ {
        seq!['\u{2192}']
    } else {
        p
    }
}

pub open spec fn pretty_parts(parts: Seq<Seq<char>>) -> Seq<char>
    decreases parts.len(),
{
    if parts.len() == 0 {
        Seq::empty()
    } else {
        pretty_part(parts[0], parts.len() == 1) + pretty_parts(parts.skip(1))
    }
}

pub open spec fn pretty(keys: Seq<char>) -> Seq<char> {
    pretty_parts(dash_parts(keys))
}

fn is_word(part: &Vec<char>, word: &str) -> (r: bool)
    ensures
        r == (part@ == word@),
{
    chars_equal(part, &chars_of(word))
}

fn pretty_piece(part: &Vec<char>, last: bool) -> (r: String)
    ensures
        r@ == pretty_part(part@, last),
{
    proof {
        reveal_strlit("-");
        reveal_strlit("^");
        reveal_strlit("\u{2325}");
        reveal_strlit("\u{21e7}");
        reveal_strlit("\u{2318}");
        reveal_strlit("\u{23ce}");
        reveal_strlit("esc");
        reveal_strlit("\u{232b}");
        reveal_strlit("\u{2326}");
        reveal_strlit("\u{21e5}");
        reveal_strlit("\u{2191}");
        reveal_strlit("\u{2193}");
        reveal_strlit("\u{2190}");
        reveal_strlit("\u{2192}");
    }
    if part.len() == 0 && last {
        String::from_str("-")
    } else if is_word(part, "ctrl") && !last {
        String::from_str("^")
    } else if is_word(part, "alt") && !last {
        String::from_str("\u{2325}")
    } else if is_word(part, "shift") && !last {
        String::from_str("\u{21e7}")
    } else if (is_word(part, "cmd") || is_word(part, "super")) && !last {
        String::from_str("\u{2318}")
    } else if is_word(part, "enter") {
        String::from_str("\u{23ce}")
    } else if is_word(part, "escape") {
        String::from_str("esc")
    } else if is_word(part, "backspace") {
        String::from_str("\u{232b}")
    } else if is_word(part, "delete") {
        String::from_str("\u{2326}")
    } else if is_word(part, "tab") {
        String::from_str("\u{21e5}")
    } else if is_word(part, "up") {
        String::from_str("\u{2191}")
    } else if is_word(part, "down") {
        String::from_str("\u{2193}")
    } else if is_word(part, "left") {
        String::from_str("\u{2190}")
    } else if is_word(part, "right") {
        String::from_str("\u{2192}")
    } else {
        string_of(part, 0, part.len())
    }
}

proof fn lemma_dash_parts_nonempty(s: Seq<char>)
    ensures
        dash_parts(s).len() >= 1,
    decreases s.len(),
{
}

/// gpui key syntax, rendered the way the help sheet writes keys:
/// `ctrl-shift-g` becomes `^⇧g`.
pub fn pretty_keys(keys: &str) -> (r: String)
    ensures
        r@ == pretty(keys@),
{
    let cs = chars_of(keys);
    let mut out = String::new();
    let mut start: usize = 0;
    let mut done = false;
    assert(cs@.skip(0) =~= cs@);
    while !done
        invariant
            start <= cs@.len(),
            !done ==> pretty(cs@) == out@ + pretty_parts(dash_parts(cs@.skip(start as int))),
            done ==> pretty(cs@) == out@,
        decreases cs@.len() - start + (if done { 0int } else { 1int }),
    {
        let ghost t = cs@.skip(start as int);
        let mut e = start;
        while e < cs.len() && cs[e] != '-'
            invariant
                start <= e <= cs@.len(),
                forall|j: int| start <= j < e ==> cs@[j] != '-',
            decreases cs@.len() - e,
        {
            e += 1;
        }
        proof {
            assert forall|j: int| 0 <= j < e - start implies t[j] != '-' by {
                assert(t[j] == cs@[start + j]);
            }
            if e < cs@.len() {
                assert(t[e - start] == cs@[e as int]);
            }
            lemma_first_index_at(t, '-', e - start);
        }
        let part = crate::split::slice_chars(&cs, start, e);
        if e < cs.len() {
            let piece = pretty_piece(&part, false);
            let ghost before = out@;
            out.append(piece.as_str());
            proof {
                assert(part@ =~= t.take(e - start));
                assert(t.skip(e - start + 1) =~= cs@.skip(e + 1));
                lemma_dash_parts_nonempty(t.skip(e - start + 1));
                let ps = dash_parts(t);
                assert(ps[0] == part@);
                assert(ps.skip(1) =~= dash_parts(cs@.skip(e + 1)));
                assert(out@ =~= before + pretty_part(part@, false));
            }
            start = e + 1;
        } else {
            let piece = pretty_piece(&part, true);
            let ghost before = out@;
            out.append(piece.as_str());
            proof {
                assert(part@ =~= t);
                let ps = dash_parts(t);
                assert(ps =~= seq![t]);
                assert(ps.skip(1) =~= Seq::<Seq<char>>::empty());
                assert(pretty_parts(ps.skip(1)) =~= Seq::<char>::empty());
                assert(ps[0] == t);
                assert(pretty_parts(ps) =~= pretty_part(t, true));
                assert(out@ =~= before + pretty_part(part@, true));
            }
            done = true;
        }
    }
    out
}

/// The prettified keys `bs` gives `action`, a key repeated right after
/// itself shown once.
pub open spec fn keys_for_model(bs: Seq<BindingModel>, action: Seq<char>) -> Seq<Seq<char>>
    decreases bs.len(),
{
    if bs.len() == 0 {
        Seq::empty()
    } else {
        let init = keys_for_model(bs.drop_last(), action);
        if bs.last().1 == action {
            let p = pretty(bs.last().0);
            if init.len() > 0 && init.last() == p { init } else { init.push(p) }
        } else {
            init
        }
    }
}

impl Keymap {
    /// The effective keys for an action, prettified, for the palette's hint.
    pub fn keys_for(&self, action: &str) -> (r: Vec<String>)
        ensures
            strings_view(r@) == keys_for_model(bindings_view(self.bindings@), action@),
    {
        let ghost bv = bindings_view(self.bindings@);
        let mut out: Vec<String> = Vec::new();
        let mut i: usize = 0;
        assert(bv.take(0) =~= Seq::<BindingModel>::empty());
        assert(strings_view(out@) =~= Seq::<Seq<char>>::empty());
        while i < self.bindings.len()
            invariant
                i <= self.bindings@.len(),
                bv == bindings_view(self.bindings@),
                strings_view(out@) == keys_for_model(bv.take(i as int), action@),
            decreases self.bindings@.len() - i,
        {
            let b = &self.bindings[i];
            let ghost t = bv.take(i + 1);
            assert(t.drop_last() =~= bv.take(i as int));
            assert(t.last() == binding_view(*b));
            if str_eq(b.action, action) {
                let p = pretty_keys(b.keys.as_str());
                let n = out.len();
                if n > 0 && str_eq(out[n - 1].as_str(), p.as_str()) {
                    assert(strings_view(out@).last() == out@[n - 1]@);
                } else {
                    let ghost before = strings_view(out@);
                    proof {
                        if n > 0 {
                            assert(before.last() == out@[n - 1]@);
                        }
                    }
                    out.push(p);
                    assert(strings_view(out@) =~= before.push(pretty(binding_view(*b).0)));
                }
            }
            i += 1;
        }
        assert(bv.take(self.bindings@.len() as int) =~= bv);
        out
    }
}

/// Every default binding names an action the keymap accepts in a file.
pub proof fn lemma_every_default_action_is_known()
    ensures
        forall|i: int| 0 <= i < default_table().len() ==> is_known((#[trigger] default_table()[i]).0@),
{
    assert forall|i: int| 0 <= i < default_table().len() implies is_known((#[trigger] default_table()[i]).0@) by {
        assert(action_names()[i] == default_table()[i].0);
    }
}

pub proof fn lemma_without(bs: Seq<BindingModel>, action: Seq<char>, context: Context, x: BindingModel)
    ensures
        without(bs, action, context).contains(x) <==> (bs.contains(x) && !(x.1 == action && x.2 == context)),
    decreases bs.len(),
{
    if bs.len() > 0 {
        lemma_without(bs.drop_last(), action, context, x);
        let d = bs.drop_last();
        if bs.contains(x) {
            let i = choose|i: int| 0 <= i < bs.len() && bs[i] == x;
            if i < bs.len() - 1 {
                assert(d[i] == x);
            }
        }
        if d.contains(x) {
            let i = choose|i: int| 0 <= i < d.len() && d[i] == x;
            assert(bs[i] == x);
        }
        let w = without(d, action, context);
        if !(bs.last().1 == action && bs.last().2 == context) {
            let w2 = w.push(bs.last());
            if w2.contains(x) {
                let i = choose|i: int| 0 <= i < w2.len() && w2[i] == x;
                if i < w.len() {
                    assert(w[i] == x);
                }
            }
            if w.contains(x) {
                let i = choose|i: int| 0 <= i < w.len() && w[i] == x;
                assert(w2[i] == x);
            }
            if x == bs.last() {
                assert(w2[w.len() as int] == x);
            }
        }
    }
}

/// Naming an action in a section replaces every key it had there and
/// touches nothing else: every other binding stays, and the action's keys
/// in that section are exactly the ones named.
pub proof fn lemma_override_replaces_only_its_own(k: KeymapModel, context: Context, name: Seq<char>, value: KeyModel)
    requires
        is_known(name),
        keys_of(value) is Some,
    ensures
        forall|b: BindingModel| k.0.contains(b) && !(b.1 == name && b.2 == context) ==> #[trigger] apply_action(k, context, name, value).0.contains(b),
        forall|b: BindingModel| #[trigger] apply_action(k, context, name, value).0.contains(b) && b.1 == name && b.2 == context ==> keys_of(value)->0.contains(b.0),
        apply_action(k, context, name, value).1 == k.1,
{
    let keys = keys_of(value)->0;
    let added = Seq::new(keys.len(), |i: int| (keys[i], name, context));
    let w = without(k.0, name, context);
    let r = apply_action(k, context, name, value).0;
    assert(r == w + added);
    assert forall|b: BindingModel| k.0.contains(b) && !(b.1 == name && b.2 == context) implies #[trigger] r.contains(b) by {
        lemma_without(k.0, name, context, b);
        let i = choose|i: int| 0 <= i < w.len() && w[i] == b;
        assert(r[i] == b);
    }
    assert forall|b: BindingModel| #[trigger] r.contains(b) && b.1 == name && b.2 == context implies keys.contains(b.0) by {
        let i = choose|i: int| 0 <= i < r.len() && r[i] == b;
        if i < w.len() {
            assert(w.contains(b));
            lemma_without(k.0, name, context, b);
        } else {
            assert(added[i - w.len()] == b);
            assert(keys[i - w.len()] == b.0);
        }
    }
}

/// The keys the help sheet draws as symbols.
pub open spec fn symbol_keys() -> Seq<Seq<char>> {
    seq!["enter"@, "escape"@, "backspace"@, "delete"@, "tab"@, "up"@, "down"@, "left"@, "right"@]
}

/// No two of the keys drawn as symbols look alike: each is told apart from
/// every other, whether it stands alone or after modifiers.
pub proof fn lemma_symbol_keys_distinct(i: int, j: int, last: bool)
    requires
        0 <= i < j < symbol_keys().len(),
    ensures
        pretty_part(symbol_keys()[i], last) != pretty_part(symbol_keys()[j], last),
{
    reveal_strlit("enter");
    reveal_strlit("escape");
    reveal_strlit("backspace");
    reveal_strlit("delete");
    reveal_strlit("tab");
    reveal_strlit("up");
    reveal_strlit("down");
    reveal_strlit("left");
    reveal_strlit("right");
    reveal_strlit("ctrl");
    reveal_strlit("alt");
    reveal_strlit("shift");
    reveal_strlit("cmd");
    reveal_strlit("super");
    assert("enter"@.len() == 5 && "enter"@[0] == 'e' && "enter"@[1] == 'n' && "enter"@[2] == 't' && "enter"@[3] == 'e' && "enter"@[4] == 'r');
    assert("escape"@.len() == 6 && "escape"@[0] == 'e' && "escape"@[1] == 's' && "escape"@[2] == 'c' && "escape"@[3] == 'a' && "escape"@[4] == 'p' && "escape"@[5] == 'e');
    assert("backspace"@.len() == 9 && "backspace"@[0] == 'b' && "backspace"@[1] == 'a' && "backspace"@[2] == 'c' && "backspace"@[3] == 'k' && "backspace"@[4] == 's' && "backspace"@[5] == 'p' && "backspace"@[6] == 'a' && "backspace"@[7] == 'c' && "backspace"@[8] == 'e');
    assert("delete"@.len() == 6 && "delete"@[0] == 'd' && "delete"@[1] == 'e' && "delete"@[2] == 'l' && "delete"@[3] == 'e' && "delete"@[4] == 't' && "delete"@[5] == 'e');
    assert("tab"@.len() == 3 && "tab"@[0] == 't' && "tab"@[1] == 'a' && "tab"@[2] == 'b');
    assert("up"@.len() == 2 && "up"@[0] == 'u' && "up"@[1] == 'p');
    assert("down"@.len() == 4 && "down"@[0] == 'd' && "down"@[1] == 'o' && "down"@[2] == 'w' && "down"@[3] == 'n');
    assert("left"@.len() == 4 && "left"@[0] == 'l' && "left"@[1] == 'e' && "left"@[2] == 'f' && "left"@[3] == 't');
    assert("right"@.len() == 5 && "right"@[0] == 'r' && "right"@[1] == 'i' && "right"@[2] == 'g' && "right"@[3] == 'h' && "right"@[4] == 't');
    assert("ctrl"@.len() == 4 && "ctrl"@[0] == 'c' && "ctrl"@[1] == 't' && "ctrl"@[2] == 'r' && "ctrl"@[3] == 'l');
    assert("alt"@.len() == 3 && "alt"@[0] == 'a' && "alt"@[1] == 'l' && "alt"@[2] == 't');
    assert("shift"@.len() == 5 && "shift"@[0] == 's' && "shift"@[1] == 'h' && "shift"@[2] == 'i' && "shift"@[3] == 'f' && "shift"@[4] == 't');
    assert("cmd"@.len() == 3 && "cmd"@[0] == 'c' && "cmd"@[1] == 'm' && "cmd"@[2] == 'd');
    assert("super"@.len() == 5 && "super"@[0] == 's' && "super"@[1] == 'u' && "super"@[2] == 'p' && "super"@[3] == 'e' && "super"@[4] == 'r');
    let a = symbol_keys()[i];
    let b = symbol_keys()[j];
    assert(pretty_part(a, last).len() > 0);
    if pretty_part(a, last) == pretty_part(b, last) {
        assert(pretty_part(a, last)[0] == pretty_part(b, last)[0]);
    }
}

/// The arrow keys point their own way: up ↑, down ↓, left ←, right →.
pub proof fn lemma_arrows_point_their_way(last: bool)
    ensures
        pretty_part("up"@, last) == seq!['\u{2191}'],
        pretty_part("down"@, last) == seq!['\u{2193}'],
        pretty_part("left"@, last) == seq!['\u{2190}'],
        pretty_part("right"@, last) == seq!['\u{2192}'],
{
    reveal_strlit("enter");
    reveal_strlit("escape");
    reveal_strlit("backspace");
    reveal_strlit("delete");
    reveal_strlit("tab");
    reveal_strlit("up");
    reveal_strlit("down");
    reveal_strlit("left");
    reveal_strlit("right");
    reveal_strlit("ctrl");
    reveal_strlit("alt");
    reveal_strlit("shift");
    reveal_strlit("cmd");
    reveal_strlit("super");
    assert("enter"@.len() == 5 && "enter"@[0] == 'e' && "enter"@[1] == 'n' && "enter"@[2] == 't' && "enter"@[3] == 'e' && "enter"@[4] == 'r');
    assert("escape"@.len() == 6 && "escape"@[0] == 'e' && "escape"@[1] == 's' && "escape"@[2] == 'c' && "escape"@[3] == 'a' && "escape"@[4] == 'p' && "escape"@[5] == 'e');
    assert("backspace"@.len() == 9 && "backspace"@[0] == 'b' && "backspace"@[1] == 'a' && "backspace"@[2] == 'c' && "backspace"@[3] == 'k' && "backspace"@[4] == 's' && "backspace"@[5] == 'p' && "backspace"@[6] == 'a' && "backspace"@[7] == 'c' && "backspace"@[8] == 'e');
    assert("delete"@.len() == 6 && "delete"@[0] == 'd' && "delete"@[1] == 'e' && "delete"@[2] == 'l' && "delete"@[3] == 'e' && "delete"@[4] == 't' && "delete"@[5] == 'e');
    assert("tab"@.len() == 3 && "tab"@[0] == 't' && "tab"@[1] == 'a' && "tab"@[2] == 'b');
    assert("up"@.len() == 2 && "up"@[0] == 'u' && "up"@[1] == 'p');
    assert("down"@.len() == 4 && "down"@[0] == 'd' && "down"@[1] == 'o' && "down"@[2] == 'w' && "down"@[3] == 'n');
    assert("left"@.len() == 4 && "left"@[0] == 'l' && "left"@[1] == 'e' && "left"@[2] == 'f' && "left"@[3] == 't');
    assert("right"@.len() == 5 && "right"@[0] == 'r' && "right"@[1] == 'i' && "right"@[2] == 'g' && "right"@[3] == 'h' && "right"@[4] == 't');
    assert("ctrl"@.len() == 4 && "ctrl"@[0] == 'c' && "ctrl"@[1] == 't' && "ctrl"@[2] == 'r' && "ctrl"@[3] == 'l');
    assert("alt"@.len() == 3 && "alt"@[0] == 'a' && "alt"@[1] == 'l' && "alt"@[2] == 't');
    assert("shift"@.len() == 5 && "shift"@[0] == 's' && "shift"@[1] == 'h' && "shift"@[2] == 'i' && "shift"@[3] == 'f' && "shift"@[4] == 't');
    assert("cmd"@.len() == 3 && "cmd"@[0] == 'c' && "cmd"@[1] == 'm' && "cmd"@[2] == 'd');
    assert("super"@.len() == 5 && "super"@[0] == 's' && "super"@[1] == 'u' && "super"@[2] == 'p' && "super"@[3] == 'e' && "super"@[4] == 'r');
}

/// A modifier joined to a key shows the modifier's symbol and then the key:
/// `^` for ctrl, `⌥` for alt, `⇧` for shift, `⌘` for cmd and super —
/// so `alt-right` reads `⌥→`.
pub proof fn lemma_modifier_then_key(m: Seq<char>, k: Seq<char>)
    requires
        m == "ctrl"@ || m == "alt"@ || m == "shift"@ || m == "cmd"@ || m == "super"@,
        forall|j: int| 0 <= j < k.len() ==> k[j] != '-',
    ensures
        pretty(m + seq!['-'] + k) == pretty_part(m, false) + pretty_part(k, true),
        pretty_part(m, false) == if m == "ctrl"@ {
            seq!['^']
        } else if m == "alt"@ {
            seq!['\u{2325}']
        } else if m == "shift"@ {
            seq!['\u{21e7}']
        } else {
            seq!['\u{2318}']
        },
{
    reveal_strlit("enter");
    reveal_strlit("escape");
    reveal_strlit("backspace");
    reveal_strlit("delete");
    reveal_strlit("tab");
    reveal_strlit("up");
    reveal_strlit("down");
    reveal_strlit("left");
    reveal_strlit("right");
    reveal_strlit("ctrl");
    reveal_strlit("alt");
    reveal_strlit("shift");
    reveal_strlit("cmd");
    reveal_strlit("super");
    assert("enter"@.len() == 5 && "enter"@[0] == 'e' && "enter"@[1] == 'n' && "enter"@[2] == 't' && "enter"@[3] == 'e' && "enter"@[4] == 'r');
    assert("escape"@.len() == 6 && "escape"@[0] == 'e' && "escape"@[1] == 's' && "escape"@[2] == 'c' && "escape"@[3] == 'a' && "escape"@[4] == 'p' && "escape"@[5] == 'e');
    assert("backspace"@.len() == 9 && "backspace"@[0] == 'b' && "backspace"@[1] == 'a' && "backspace"@[2] == 'c' && "backspace"@[3] == 'k' && "backspace"@[4] == 's' && "backspace"@[5] == 'p' && "backspace"@[6] == 'a' && "backspace"@[7] == 'c' && "backspace"@[8] == 'e');
    assert("delete"@.len() == 6 && "delete"@[0] == 'd' && "delete"@[1] == 'e' && "delete"@[2] == 'l' && "delete"@[3] == 'e' && "delete"@[4] == 't' && "delete"@[5] == 'e');
    assert("tab"@.len() == 3 && "tab"@[0] == 't' && "tab"@[1] == 'a' && "tab"@[2] == 'b');
    assert("up"@.len() == 2 && "up"@[0] == 'u' && "up"@[1] == 'p');
    assert("down"@.len() == 4 && "down"@[0] == 'd' && "down"@[1] == 'o' && "down"@[2] == 'w' && "down"@[3] == 'n');
    assert("left"@.len() == 4 && "left"@[0] == 'l' && "left"@[1] == 'e' && "left"@[2] == 'f' && "left"@[3] == 't');
    assert("right"@.len() == 5 && "right"@[0] == 'r' && "right"@[1] == 'i' && "right"@[2] == 'g' && "right"@[3] == 'h' && "right"@[4] == 't');
    assert("ctrl"@.len() == 4 && "ctrl"@[0] == 'c' && "ctrl"@[1] == 't' && "ctrl"@[2] == 'r' && "ctrl"@[3] == 'l');
    assert("alt"@.len() == 3 && "alt"@[0] == 'a' && "alt"@[1] == 'l' && "alt"@[2] == 't');
    assert("shift"@.len() == 5 && "shift"@[0] == 's' && "shift"@[1] == 'h' && "shift"@[2] == 'i' && "shift"@[3] == 'f' && "shift"@[4] == 't');
    assert("cmd"@.len() == 3 && "cmd"@[0] == 'c' && "cmd"@[1] == 'm' && "cmd"@[2] == 'd');
    assert("super"@.len() == 5 && "super"@[0] == 's' && "super"@[1] == 'u' && "super"@[2] == 'p' && "super"@[3] == 'e' && "super"@[4] == 'r');
    let s = m + seq!['-'] + k;
    assert forall|j: int| 0 <= j < m.len() implies s[j] != '-' by {
        assert(s[j] == m[j]);
    }
    assert(s[m.len() as int] == '-');
    lemma_first_index_at(s, '-', m.len() as int);
    assert(s.take(m.len() as int) =~= m);
    assert(s.skip(m.len() as int + 1) =~= k);
    lemma_first_index_at(k, '-', k.len() as int);
    assert(dash_parts(k) == seq![k]);
    assert(dash_parts(s) =~= seq![m, k]);
    assert(seq![m, k].skip(1) =~= seq![k]);
    assert(seq![k].skip(1) =~= Seq::<Seq<char>>::empty());
    assert(pretty_parts(seq![k]) == pretty_part(k, true) + pretty_parts(Seq::<Seq<char>>::empty()));
    assert(pretty_parts(seq![k]) =~= pretty_part(k, true));
    assert(pretty_parts(seq![m, k]) == pretty_part(m, false) + pretty_parts(seq![k]));
}

} // verus!
