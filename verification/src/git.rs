//! What git knows about the directory we are looking at: the branch, a
//! status marker per entry, and the diff of a changed file.
//!
//! The model half: `git status --porcelain=v2 -z` and `git diff` output are
//! parsed here, and the per-directory rollup is computed once from them. The
//! processes themselves are run by the application.

use vstd::prelude::*;
use crate::path::{canon, canonical, join_of, parent_of, path_starts_with, strict_ancestors, lemma_parent_shorter, text_starts_with, tidy, trim_end_seps};
use crate::table::Table;
use crate::text::{chars_of, concat, str_eq, string_of};
use crate::path::join;
use crate::palette::{lowercased, to_lowercase};
use crate::network::{contains, contains_text};
use crate::split::{first_index, lemma_first_index, lemma_first_index_at, lines_of, pieces, split_lines, split_pieces, views};
use crate::diff::{finish, numbers_fit, parse_diff, parsed, trim_bounds, trim_ws, hunks_view};
pub use crate::diff::{Diff, Hunk, Line, LineKind};

verus! {

/// Lines of diff kept before it is cut short.
pub const MAX_DIFF_LINES: usize = 600;

/// A repository, found by walking up from a directory.
#[derive(Debug, PartialEq, Eq)]
pub struct Repo {
    /// The working tree root — the directory holding `.git`.
    pub root: String,
    /// `.git` itself, or where a `.git` *file* points for a linked worktree
    /// or a submodule. This is what holds `HEAD`, and what is watched.
    pub git_dir: String,
    /// Where refs live: `git_dir` in the ordinary case, the main
    /// repository's `.git` for a linked worktree.
    pub common_dir: String,
}

impl Clone for Repo {
    fn clone(&self) -> (r: Self)
        ensures
            r == *self,
    {
        Repo { root: self.root.clone(), git_dir: self.git_dir.clone(), common_dir: self.common_dir.clone() }
    }
}

impl Repo {
    pub fn new(root: String, git_dir: String, common_dir: String) -> (r: Repo)
        ensures
            r.root == root,
            r.git_dir == git_dir,
            r.common_dir == common_dir,
    {
        Repo { root, git_dir, common_dir }
    }

}

/// Where `HEAD` is, in words.
#[derive(Debug, Clone, PartialEq, Eq)]
pub enum Head {
    Branch(String),
    /// A branch that exists only in `HEAD` — a fresh `git init`, before the
    /// first commit.
    Unborn(String),
    /// Short object id.
    Detached(String),
    /// The branch being rebased, when git recorded one.
    Rebasing(Option<String>),
    Merging(Option<String>),
}

pub open spec fn head_label(h: Head) -> Seq<char> {
    match h {
        Head::Branch(name) => name@,
        Head::Unborn(name) => name@ + " · no commits"@,
        Head::Detached(oid) => "detached at "@ + oid@,
        Head::Rebasing(Some(name)) => "rebasing "@ + name@,
        Head::Rebasing(None) => "rebasing"@,
        Head::Merging(Some(name)) => "merging "@ + name@,
        Head::Merging(None) => "merging"@,
    }
}

impl Head {
    /// What the status bar shows.
    pub fn label(&self) -> (r: String)
        ensures
            r@ == head_label(*self),
    {
        match self {
            Head::Branch(name) => name.clone(),
            Head::Unborn(name) => concat(name.as_str(), " · no commits"),
            Head::Detached(oid) => concat("detached at ", oid.as_str()),
            Head::Rebasing(Some(name)) => concat("rebasing ", name.as_str()),
            Head::Rebasing(None) => String::from_str("rebasing"),
            Head::Merging(Some(name)) => concat("merging ", name.as_str()),
            Head::Merging(None) => String::from_str("merging"),
        }
    }

    /// The branch to put the cursor on in the switcher, if there is one.
    pub fn branch(&self) -> (r: Option<&str>)
        ensures
            match *self {
                Head::Branch(name) | Head::Unborn(name) => r matches Some(s) && s@ == name@,
                _ => r is None,
            },
    {
        match self {
            Head::Branch(name) | Head::Unborn(name) => Some(name.as_str()),
            _ => None,
        }
    }
}

/// What git says about one path.
#[derive(Debug, Clone, Copy, PartialEq, Eq, Structural)]
pub enum State {
    Added,
    Modified,
    Deleted,
    Untracked,
    Conflicted,
}

/// Which state a directory shows when several are inside it: conflicted and
/// deleted are the two you must not miss; a folder that changed is better
/// described as modified than as new.
pub open spec fn severity(s: State) -> nat {
    match s {
        State::Conflicted => 4,
        State::Deleted => 3,
        State::Modified => 2,
        State::Added => 1,
        State::Untracked => 0,
    }
}

pub open spec fn marker_of(s: State) -> Seq<char> {
    match s {
        State::Added => "+"@,
        State::Modified => "\u{2022}"@,
        State::Deleted => "\u{2212}"@,
        State::Untracked => "?"@,
        State::Conflicted => "!"@,
    }
}

pub open spec fn role_of(s: State) -> Seq<char> {
    match s {
        State::Added => "green"@,
        State::Modified => "yellow"@,
        State::Deleted | State::Conflicted => "red"@,
        State::Untracked => "muted"@,
    }
}

impl State {
    /// The badge glyph. Conflicted and deleted share a colour, so they
    /// differ by shape.
    pub fn marker(&self) -> (r: &'static str)
        ensures
            r@ == marker_of(*self),
    {
        match self {
            State::Added => "+",
            State::Modified => "\u{2022}",
            State::Deleted => "\u{2212}",
            State::Untracked => "?",
            State::Conflicted => "!",
        }
    }

    /// The palette key to draw it in.
    pub fn role(&self) -> (r: &'static str)
        ensures
            r@ == role_of(*self),
    {
        match self {
            State::Added => "green",
            State::Modified => "yellow",
            State::Deleted | State::Conflicted => "red",
            State::Untracked => "muted",
        }
    }

    pub fn severity(&self) -> (r: u8)
        ensures
            r == severity(*self),
    {
        match self {
            State::Conflicted => 4,
            State::Deleted => 3,
            State::Modified => 2,
            State::Added => 1,
            State::Untracked => 0,
        }
    }
}

/// How many paths are in each state. The status bar's summary.
#[derive(Debug, Clone, Copy, Default, PartialEq, Eq, Structural)]
pub struct Counts {
    pub added: usize,
    pub modified: usize,
    pub deleted: usize,
    pub untracked: usize,
    pub conflicted: usize,
}

pub open spec fn counts_total(c: Counts) -> int {
    c.added + c.modified + c.deleted + c.untracked + c.conflicted
}

/// `c` with one more path in state `s`.
pub open spec fn bump(c: Counts, s: State) -> Counts {
    match s {
        State::Added => Counts { added: (c.added + 1) as usize, ..c },
        State::Modified => Counts { modified: (c.modified + 1) as usize, ..c },
        State::Deleted => Counts { deleted: (c.deleted + 1) as usize, ..c },
        State::Untracked => Counts { untracked: (c.untracked + 1) as usize, ..c },
        State::Conflicted => Counts { conflicted: (c.conflicted + 1) as usize, ..c },
    }
}

/// The non-zero groups of `s`, in order.
pub open spec fn keep_nonzero(s: Seq<(State, usize)>) -> Seq<(State, usize)>
    decreases s.len(),
{
    if s.len() == 0 {
        s
    } else if s.last().1 > 0 {
        keep_nonzero(s.drop_last()).push(s.last())
    } else {
        keep_nonzero(s.drop_last())
    }
}

pub open spec fn summary_of(c: Counts) -> Seq<(State, usize)> {
    keep_nonzero(
        seq![
            (State::Conflicted, c.conflicted),
            (State::Added, c.added),
            (State::Modified, c.modified),
            (State::Deleted, c.deleted),
            (State::Untracked, c.untracked),
        ],
    )
}

impl Counts {
    pub fn total(&self) -> (r: usize)
        requires
            counts_total(*self) <= usize::MAX,
        ensures
            r == counts_total(*self),
    {
        self.added + self.modified + self.deleted + self.untracked + self.conflicted
    }

    pub fn is_clean(&self) -> (r: bool)
        requires
            counts_total(*self) <= usize::MAX,
        ensures
            r == (counts_total(*self) == 0),
    {
        self.total() == 0
    }

    /// Non-zero groups, in marker order, for the status bar.
    pub fn summary(&self) -> (r: Vec<(State, usize)>)
        ensures
            r@ == summary_of(*self),
    {
        let ghost all = seq![
            (State::Conflicted, self.conflicted),
            (State::Added, self.added),
            (State::Modified, self.modified),
            (State::Deleted, self.deleted),
            (State::Untracked, self.untracked),
        ];
        let mut out: Vec<(State, usize)> = Vec::new();
        assert(all.take(0).len() == 0);
        assert(keep_nonzero(all.take(0)) =~= out@);
        if self.conflicted > 0 {
            out.push((State::Conflicted, self.conflicted));
        }
        assert(all.take(1).drop_last() =~= all.take(0));
        assert(keep_nonzero(all.take(1)) =~= out@);
        if self.added > 0 {
            out.push((State::Added, self.added));
        }
        assert(all.take(2).drop_last() =~= all.take(1));
        assert(keep_nonzero(all.take(2)) =~= out@);
        if self.modified > 0 {
            out.push((State::Modified, self.modified));
        }
        assert(all.take(3).drop_last() =~= all.take(2));
        assert(keep_nonzero(all.take(3)) =~= out@);
        if self.deleted > 0 {
            out.push((State::Deleted, self.deleted));
        }
        assert(all.take(4).drop_last() =~= all.take(3));
        assert(keep_nonzero(all.take(4)) =~= out@);
        if self.untracked > 0 {
            out.push((State::Untracked, self.untracked));
        }
        assert(all.take(5).drop_last() =~= all.take(4));
        assert(all.take(5) =~= all);
        out
    }
}

/// Index of the first `c` in `s[from..]`, counted from the start of `s`.
pub fn find_char(s: &Vec<char>, from: usize, c: char) -> (r: Option<usize>)
    requires
        from <= s@.len(),
    ensures
        match r {
            Some(i) => from <= i < s@.len() && first_index(s@.skip(from as int), c) == i - from,
            None => first_index(s@.skip(from as int), c) == -1,
        },
{
    let mut i = from;
    while i < s.len()
        invariant
            from <= i <= s@.len(),
            forall|j: int| from <= j < i ==> s@[j] != c,
        decreases s@.len() - i,
    {
        if s[i] == c {
            proof { lemma_first_index_at(s@.skip(from as int), c, i - from); }
            return Some(i);
        }
        i += 1;
    }
    proof { lemma_first_index_at(s@.skip(from as int), c, s@.len() - from); }
    None
}

/// What follows the `k`-th space of `s`, if it has that many.
pub open spec fn after_spaces(s: Seq<char>, k: nat) -> Option<Seq<char>>
    decreases k,
{
    if k == 0 {
        Some(s)
    } else {
        let i = first_index(s, ' ');
        if i < 0 {
            None
        } else {
            after_spaces(s.skip(i + 1), (k - 1) as nat)
        }
    }
}

/// Everything before the first space.
pub open spec fn first_field(s: Seq<char>) -> Seq<char> {
    let i = first_index(s, ' ');
    if i < 0 {
        s
    } else {
        s.take(i)
    }
}

/// `rest`'s first field, and the path after `skip` fields taken whole —
/// file names contain spaces, so the rest of the record is the path.
pub open spec fn field_and_path_of(rest: Seq<char>, skip: nat) -> Option<(Seq<char>, Seq<char>)> {
    match after_spaces(rest, skip) {
        Some(p) => if p.len() > 0 {
            Some((first_field(rest), p))
        } else {
            None
        },
        None => None,
    }
}

/// Split `s[from..]` into its first field and the path that follows `skip`
/// fields.
pub fn field_and_path(s: &Vec<char>, from: usize, skip: usize) -> (r: Option<(Vec<char>, Vec<char>)>)
    requires
        from <= s@.len(),
    ensures
        r is None <==> field_and_path_of(s@.skip(from as int), skip as nat) is None,
        r matches Some(p) ==> field_and_path_of(s@.skip(from as int), skip as nat) == Some((p.0@, p.1@)),
{
    let ghost rest = s@.skip(from as int);
    let mut pos = from;
    let mut n: usize = 0;
    while n < skip
        invariant
            from <= pos <= s@.len(),
            s@.len() == s.len(),
            rest == s@.skip(from as int),
            n <= skip,
            after_spaces(rest, skip as nat) == after_spaces(s@.skip(pos as int), (skip - n) as nat),
        decreases skip - n,
    {
        match find_char(s, pos, ' ') {
            None => {
                assert(after_spaces(s@.skip(pos as int), (skip - n) as nat) is None);
                assert(after_spaces(rest, skip as nat) is None);
                assert(field_and_path_of(rest, skip as nat) is None);
                return None;
            },
            Some(i) => {
                assert(s@.skip(pos as int).skip(i - pos + 1) =~= s@.skip(i + 1));
                pos = i + 1;
            },
        }
        n += 1;
    }
    assert(after_spaces(rest, skip as nat) == Some(s@.skip(pos as int)));
    if pos == s.len() {
        assert(s@.skip(pos as int).len() == 0);
        return None;
    }
    let path = crate::split::slice_chars(s, pos, s.len());
    assert(path@ =~= s@.skip(pos as int));
    let first_end = match find_char(s, from, ' ') {
        Some(i) => i,
        None => s.len(),
    };
    let first = crate::split::slice_chars(s, from, first_end);
    assert(first@ =~= first_field(rest));
    Some((first, path))
}

/// The two-letter `XY` code: staged, then worktree.
pub open spec fn xy_state(xy: Seq<char>) -> State {
    let staged = if xy.len() > 0 { xy[0] } else { '.' };
    let worktree = if xy.len() > 1 { xy[1] } else { '.' };
    if staged == 'A' || worktree == 'A' {
        State::Added
    } else if staged == 'D' || worktree == 'D' {
        State::Deleted
    } else {
        State::Modified
    }
}

/// The state an `XY` code names. Checked in this order because a file can be
/// several things at once: added then edited is `AM`, and it is new.
pub fn from_xy(xy: &str) -> (r: State)
    ensures
        r == xy_state(xy@),
{
    let cs = chars_of(xy);
    state_of_code(&cs)
}

fn state_of_code(cs: &Vec<char>) -> (r: State)
    ensures
        r == xy_state(cs@),
{
    let staged = if cs.len() > 0 { cs[0] } else { '.' };
    let worktree = if cs.len() > 1 { cs[1] } else { '.' };
    if staged == 'A' || worktree == 'A' {
        State::Added
    } else if staged == 'D' || worktree == 'D' {
        State::Deleted
    } else {
        State::Modified
    }
}

/// The state a directory already showing `dirs[a]` shows once something in
/// `state` is found inside it: whichever is more severe, the old one on a tie.
pub open spec fn worse(dirs: Map<Seq<char>, State>, a: Seq<char>, state: State) -> State {
    if dirs.contains_key(a) && severity(state) <= severity(dirs[a]) {
        dirs[a]
    } else {
        state
    }
}

/// Roll `state` up into every directory along `chain` (ancestors, nearest
/// first) that lies inside `root`, stopping at the root itself. The paths
/// are in normal form.
pub open spec fn rollup(dirs: Map<Seq<char>, State>, chain: Seq<Seq<char>>, root: Seq<char>, state: State) -> Map<Seq<char>, State>
    decreases chain.len(),
{
    if chain.len() == 0 || !text_starts_with(chain[0], root) {
        dirs
    } else {
        let d2 = dirs.insert(chain[0], worse(dirs, chain[0], state));
        if chain[0] == root {
            d2
        } else {
            rollup(d2, chain.skip(1), root, state)
        }
    }
}

/// The status of a repository, as sets and maps over paths in normal form.
pub struct StatusModel {
    pub files: Map<Seq<char>, State>,
    pub dirs: Map<Seq<char>, State>,
    pub untracked: Seq<Seq<char>>,
    pub counts: Counts,
}

pub open spec fn empty_model() -> StatusModel {
    StatusModel { files: Map::empty(), dirs: Map::empty(), untracked: Seq::empty(), counts: Counts { added: 0, modified: 0, deleted: 0, untracked: 0, conflicted: 0 } }
}

/// Recording a change to `path`, in normal form like `root`.
pub open spec fn insert_normal(m: StatusModel, path: Seq<char>, state: State, root: Seq<char>) -> StatusModel {
    StatusModel {
        files: m.files.insert(path, state),
        dirs: rollup(m.dirs, strict_ancestors(path), root, state),
        untracked: m.untracked,
        counts: bump(m.counts, state),
    }
}

/// Recording a change to `path` under the repository `root`: both are
/// taken in normal form, so `a//b` and `a/./b` are the same path.
pub open spec fn insert_model(m: StatusModel, path: Seq<char>, state: State, root: Seq<char>) -> StatusModel {
    insert_normal(m, canon(path), state, canon(root))
}

/// Whether any of `chain` is a collapsed untracked directory.
pub open spec fn any_untracked(chain: Seq<Seq<char>>, untracked: Seq<Seq<char>>) -> bool
    decreases chain.len(),
{
    chain.len() > 0 && (untracked.contains(chain[0]) || any_untracked(chain.skip(1), untracked))
}

/// The marker for one path: its own state, else its directory's rollup,
/// else untracked when it lies inside a collapsed untracked directory.
pub open spec fn lookup(m: StatusModel, path: Seq<char>) -> Option<State> {
    lookup_normal(m, canon(path))
}

/// [`lookup`] of a path in normal form.
pub open spec fn lookup_normal(m: StatusModel, p: Seq<char>) -> Option<State> {
    if m.files.contains_key(p) {
        Some(m.files[p])
    } else if m.dirs.contains_key(p) {
        Some(m.dirs[p])
    } else if any_untracked(strict_ancestors(p), m.untracked) {
        Some(State::Untracked)
    } else {
        None
    }
}

/// Every changed path in a repository, indexed for per-row lookup: the
/// rollup is computed once from the single status call.
#[derive(Debug)]
pub struct Status {
    files: Table<State>,
    /// Directories that contain something changed, rolled up.
    dirs: Table<State>,
    /// `git status` collapses an untracked directory to one entry, so
    /// anything inside it is absent from `files`.
    untracked_dirs: Vec<String>,
    pub counts: Counts,
}

impl Default for Status {
    fn default() -> (r: Self)
        ensures
            r.wf(),
            r.model() == empty_model(),
    {
        let r = Status { files: Table::new(), dirs: Table::new(), untracked_dirs: Vec::new(), counts: Counts { added: 0, modified: 0, deleted: 0, untracked: 0, conflicted: 0 } };
        assert(views_of(r.untracked_dirs@) =~= Seq::<Seq<char>>::empty());
        r
    }
}

pub open spec fn views_of(v: Seq<String>) -> Seq<Seq<char>> {
    Seq::new(v.len(), |i: int| v[i]@)
}

impl Status {
    pub closed spec fn wf(&self) -> bool {
        self.files.wf() && self.dirs.wf()
    }

    pub closed spec fn model(&self) -> StatusModel {
        StatusModel { files: self.files.view(), dirs: self.dirs.view(), untracked: views_of(self.untracked_dirs@), counts: self.counts }
    }

    fn in_untracked(&self, p: &str) -> (r: bool)
        ensures
            r == self.model().untracked.contains(p@),
    {
        let mut i: usize = 0;
        while i < self.untracked_dirs.len()
            invariant
                i <= self.untracked_dirs@.len(),
                forall|j: int| 0 <= j < i ==> self.untracked_dirs@[j]@ != p@,
            decreases self.untracked_dirs@.len() - i,
        {
            if str_eq(self.untracked_dirs[i].as_str(), p) {
                assert(self.model().untracked[i as int] == p@);
                return true;
            }
            i += 1;
        }
        assert(!self.model().untracked.contains(p@));
        false
    }

    /// The marker for one entry, or `None` if git has nothing to say about it.
    pub fn of(&self, path: &str) -> (r: Option<State>)
        requires
            self.wf(),
        ensures
            r == lookup(self.model(), path@),
    {
        let normal = canonical(path);
        self.of_normal(normal.as_str())
    }

    /// The marker for a path already in normal form.
    fn of_normal(&self, path: &str) -> (r: Option<State>)
        requires
            self.wf(),
        ensures
            r == lookup_normal(self.model(), path@),
    {
        if let Some(s) = self.files.get(path) {
            return Some(*s);
        }
        if let Some(s) = self.dirs.get(path) {
            return Some(*s);
        }
        let mut cur = String::from_str(path);
        loop
            invariant
                self.wf(),
                !self.model().files.contains_key(path@),
                !self.model().dirs.contains_key(path@),
                any_untracked(strict_ancestors(path@), self.model().untracked) == any_untracked(strict_ancestors(cur@), self.model().untracked),
            decreases cur@.len(),
        {
            match crate::path::parent(cur.as_str()) {
                None => {
                    return None;
                },
                Some(a) => {
                    proof {
                        lemma_parent_shorter(cur@);
                        assert(strict_ancestors(cur@) == seq![a@] + strict_ancestors(a@));
                        assert((seq![a@] + strict_ancestors(a@)).skip(1) =~= strict_ancestors(a@));
                    }
                    if self.in_untracked(a.as_str()) {
                        return Some(State::Untracked);
                    }
                    cur = a;
                },
            }
        }
    }

    /// Record one changed path: count it, roll it up into every directory
    /// between it and the root — never above, or a marker would leak onto the
    /// user's home directory — and remember its own state.
    pub fn insert(&mut self, path: String, state: State, root: &str)
        requires
            old(self).wf(),
            counts_total(old(self).model().counts) < usize::MAX,
        ensures
            final(self).wf(),
            final(self).model() == insert_model(old(self).model(), path@, state, root@),
            counts_total(final(self).model().counts) == counts_total(old(self).model().counts) + 1,
    {
        let normal = canonical(path.as_str());
        let normal_root = canonical(root);
        self.insert_normal(normal, state, normal_root.as_str());
    }

    /// [`Status::insert`] of a path and root in normal form.
    fn insert_normal(&mut self, path: String, state: State, root: &str)
        requires
            old(self).wf(),
            counts_total(old(self).model().counts) < usize::MAX,
        ensures
            final(self).wf(),
            final(self).model() == insert_normal(old(self).model(), path@, state, root@),
            counts_total(final(self).model().counts) == counts_total(old(self).model().counts) + 1,
    {
        match state {
            State::Added => self.counts.added = self.counts.added + 1,
            State::Modified => self.counts.modified = self.counts.modified + 1,
            State::Deleted => self.counts.deleted = self.counts.deleted + 1,
            State::Untracked => self.counts.untracked = self.counts.untracked + 1,
            State::Conflicted => self.counts.conflicted = self.counts.conflicted + 1,
        }
        let ghost start = self.dirs.view();
        let ghost files0 = self.files.view();
        let ghost untracked0 = self.untracked_dirs@;
        let ghost counts0 = self.counts;
        let mut cur = path.clone();
        loop
            invariant
                self.dirs.wf(),
                self.files.wf(),
                self.files.view() == files0,
                self.untracked_dirs@ == untracked0,
                self.counts == counts0,
                rollup(start, strict_ancestors(path@), root@, state) == rollup(self.dirs.view(), strict_ancestors(cur@), root@, state),
            ensures
                self.dirs.wf(),
                self.files.wf(),
                self.files.view() == files0,
                self.untracked_dirs@ == untracked0,
                self.counts == counts0,
                rollup(start, strict_ancestors(path@), root@, state) == self.dirs.view(),
            decreases cur@.len(),
        {
            match crate::path::parent(cur.as_str()) {
                None => {
                    break;
                },
                Some(a) => {
                    proof {
                        lemma_parent_shorter(cur@);
                        assert(strict_ancestors(cur@) == seq![a@] + strict_ancestors(a@));
                        assert((seq![a@] + strict_ancestors(a@)).skip(1) =~= strict_ancestors(a@));
                    }
                    if !crate::path::starts_with_text(a.as_str(), root) {
                        break;
                    }
                    let ghost before = self.dirs.view();
                    let next = match self.dirs.get(a.as_str()) {
                        Some(old_state) => if state.severity() > old_state.severity() {
                            state
                        } else {
                            *old_state
                        },
                        None => state,
                    };
                    let at_root = str_eq(a.as_str(), root);
                    self.dirs.set(a.clone(), next);
                    assert(next == worse(before, a@, state));
                    if at_root {
                        break;
                    }
                    cur = a;
                },
            }
        }
        self.files.set(path, state);
    }

    /// Mark `path` as a collapsed untracked directory.
    fn add_untracked_dir(&mut self, path: &str)
        ensures
            final(self).model() == (StatusModel { untracked: old(self).model().untracked.push(canon(path@)), ..old(self).model() }),
            final(self).files == old(self).files,
            final(self).dirs == old(self).dirs,
    {
        let path = canonical(path);
        self.untracked_dirs.push(path);
        assert(views_of(self.untracked_dirs@) =~= views_of(old(self).untracked_dirs@).push(path@));
    }
}

/// One `--porcelain=v2` record's effect on the status.
pub open spec fn step_record(m: StatusModel, rec: Seq<char>, root: Seq<char>) -> StatusModel {
    let i = first_index(rec, ' ');
    if i < 0 {
        m
    } else {
        let tag = rec.take(i);
        let rest = rec.skip(i + 1);
        if tag == seq!['1'] {
            // `1 <XY> <sub> <mH> <mI> <mW> <hH> <hI> <path>`
            match field_and_path_of(rest, 7) {
                Some((xy, p)) => insert_model(m, join_of(root, p), xy_state(xy), root),
                None => m,
            }
        } else if tag == seq!['2'] {
            // `2 <XY> … <X><score> <path>`, the original path following
            // as a record of its own.
            match field_and_path_of(rest, 8) {
                Some((xy, p)) => insert_model(m, join_of(root, p), xy_state(xy), root),
                None => m,
            }
        } else if tag == seq!['u'] {
            // `u <XY> <sub> <m1> <m2> <m3> <mW> <h1> <h2> <h3> <path>`
            match field_and_path_of(rest, 9) {
                Some((_, p)) => insert_model(m, join_of(root, p), State::Conflicted, root),
                None => m,
            }
        } else if tag == seq!['?'] {
            // A directory arrives with a trailing slash, standing in for
            // everything inside it.
            let abs = join_of(root, trim_end_seps(rest));
            let m2 = if rest.len() > 0 && rest.last() == '/' {
                StatusModel { untracked: m.untracked.push(canon(abs)), ..m }
            } else {
                m
            };
            insert_model(m2, abs, State::Untracked, root)
        } else {
            m
        }
    }
}

/// Whether `rec` is a rename, whose original path is the next record.
pub open spec fn is_rename(rec: Seq<char>) -> bool {
    let i = first_index(rec, ' ');
    i >= 0 && rec.take(i) == seq!['2']
}

/// The status the records `recs` describe, starting from `m`.
pub open spec fn parse_from(m: StatusModel, recs: Seq<Seq<char>>, root: Seq<char>) -> StatusModel
    decreases recs.len(),
{
    if recs.len() == 0 {
        m
    } else {
        let m2 = step_record(m, recs[0], root);
        if is_rename(recs[0]) && recs.len() >= 2 {
            parse_from(m2, recs.skip(2), root)
        } else {
            parse_from(m2, recs.skip(1), root)
        }
    }
}

/// The status `git status --porcelain=v2 -z` printed, for the repository at
/// `root`: the NUL-terminated records, each one applied in turn.
pub open spec fn status_of_porcelain(raw: Seq<char>, root: Seq<char>) -> StatusModel {
    parse_from(empty_model(), pieces(raw, '\0'), root)
}

impl Status {
    /// Apply one record.
    fn apply_record(&mut self, rec: &Vec<char>, root: &str)
        requires
            old(self).wf(),
            counts_total(old(self).model().counts) < usize::MAX,
        ensures
            final(self).wf(),
            final(self).model() == step_record(old(self).model(), rec@, root@),
            counts_total(final(self).model().counts) <= counts_total(old(self).model().counts) + 1,
    {
        proof { lemma_first_index(rec@, ' '); }
        if tag_is(rec, '1') {
            if let Some((xy, p)) = field_and_path(rec, 2, 7) {
                let path = crate::path::join(root, string_of(&p, 0, p.len()).as_str());
                assert(p@.subrange(0, p@.len() as int) =~= p@);
                self.insert(path, state_of_code(&xy), root);
            }
        } else if tag_is(rec, '2') {
            if let Some((xy, p)) = field_and_path(rec, 2, 8) {
                let path = crate::path::join(root, string_of(&p, 0, p.len()).as_str());
                assert(p@.subrange(0, p@.len() as int) =~= p@);
                self.insert(path, state_of_code(&xy), root);
            }
        } else if tag_is(rec, 'u') {
            if let Some((_, p)) = field_and_path(rec, 2, 9) {
                let path = crate::path::join(root, string_of(&p, 0, p.len()).as_str());
                assert(p@.subrange(0, p@.len() as int) =~= p@);
                self.insert(path, State::Conflicted, root);
            }
        } else if tag_is(rec, '?') {
            let ghost rest = rec@.skip(2);
            let mut end = rec.len();
            assert(rec@.subrange(2, rec@.len() as int) =~= rest);
            while end > 2 && rec[end - 1] == '/'
                invariant
                    2 <= end <= rec@.len(),
                    rest == rec@.skip(2),
                    trim_end_seps(rest) == trim_end_seps(rec@.subrange(2, end as int)),
                decreases end,
            {
                assert(rec@.subrange(2, end as int).drop_last() =~= rec@.subrange(2, end - 1));
                end -= 1;
            }
            assert(trim_end_seps(rec@.subrange(2, end as int)) == rec@.subrange(2, end as int));
            let trimmed = string_of(rec, 2, end);
            let abs = crate::path::join(root, trimmed.as_str());
            let ends_with_slash = rec.len() > 2 && rec[rec.len() - 1] == '/';
            assert(ends_with_slash == (rest.len() > 0 && rest.last() == '/'));
            if ends_with_slash {
                self.add_untracked_dir(abs.as_str());
            }
            self.insert(abs, State::Untracked, root);
        }
    }
}

/// Whether `rec`'s tag — what comes before its first space — is `c`.
fn tag_is(rec: &Vec<char>, c: char) -> (r: bool)
    ensures
        r == (first_index(rec@, ' ') >= 0 && rec@.take(first_index(rec@, ' ')) == seq![c]),
        r ==> first_index(rec@, ' ') == 1 && rec@.len() >= 2,
{
    assert(rec@.skip(0) =~= rec@);
    match find_char(rec, 0, ' ') {
        None => false,
        Some(i) => {
            if i == 1 && rec[0] == c {
                assert(rec@.take(1) =~= seq![c]);
                true
            } else {
                if i == 1 {
                    assert(rec@.take(1)[0] == rec@[0]);
                } else {
                    assert(rec@.take(i as int).len() == i);
                }
                false
            }
        },
    }
}

/// Parse `--porcelain=v2 -z` output for the repository at `root`.
///
/// `-z` makes every record NUL-terminated, which is the only way a path
/// containing a newline parses correctly.
pub fn parse_status(raw: &str, root: &str) -> (r: Status)
    ensures
        r.wf(),
        r.model() == status_of_porcelain(raw@, root@),
{
    let cs = chars_of(raw);
    let recs = split_pieces(&cs, '\0');
    let ghost all = views(recs@);
    let mut status = Status::default();
    let mut k: usize = 0;
    assert(all.skip(0) =~= all);
    while k < recs.len()
        invariant
            k <= recs@.len(),
            all == views(recs@),
            all == pieces(raw@, '\0'),
            status.wf(),
            counts_total(status.model().counts) <= k,
            status_of_porcelain(raw@, root@) == parse_from(status.model(), all.skip(k as int), root@),
        decreases recs@.len() - k,
    {
        let ghost before = status.model();
        let ghost rest = all.skip(k as int);
        assert(rest[0] == recs@[k as int]@);
        status.apply_record(&recs[k], root);
        let rename = tag_is(&recs[k], '2');
        if rename && k + 1 < recs.len() {
            assert(rest.skip(2) =~= all.skip(k + 2));
            k += 2;
        } else {
            assert(rest.skip(1) =~= all.skip(k + 1));
            k += 1;
        }
    }
    status
}

/// The rollup stops at the repository root: a directory gains a marker
/// only if it lies inside `root`.
pub proof fn lemma_rollup_stays_inside_root(dirs: Map<Seq<char>, State>, chain: Seq<Seq<char>>, root: Seq<char>, state: State)
    ensures
        forall|k: Seq<char>| #[trigger] rollup(dirs, chain, root, state).contains_key(k) ==> dirs.contains_key(k) || text_starts_with(k, root),
    decreases chain.len(),
{
    let r = rollup(dirs, chain, root, state);
    if chain.len() > 0 && text_starts_with(chain[0], root) {
        let d2 = dirs.insert(chain[0], worse(dirs, chain[0], state));
        if chain[0] != root {
            lemma_rollup_stays_inside_root(d2, chain.skip(1), root, state);
            assert(r == rollup(d2, chain.skip(1), root, state));
        } else {
            assert(r == d2);
        }
        assert forall|k: Seq<char>| #[trigger] r.contains_key(k) implies dirs.contains_key(k) || text_starts_with(k, root) by {
            if !dirs.contains_key(k) && k != chain[0] {
                assert(!d2.contains_key(k));
            }
        }
    } else {
        assert(r == dirs);
    }
}

/// A directory shows the worst state inside it: rolling a change up never
/// lowers a directory's marker, and the nearest ancestor inside the root
/// shows at least the new state.
pub proof fn lemma_rollup_shows_the_worst(dirs: Map<Seq<char>, State>, chain: Seq<Seq<char>>, root: Seq<char>, state: State)
    ensures
        forall|k: Seq<char>| #[trigger] dirs.contains_key(k) ==> rollup(dirs, chain, root, state).contains_key(k) && severity(rollup(dirs, chain, root, state)[k]) >= severity(dirs[k]),
        chain.len() > 0 && text_starts_with(chain[0], root) ==> rollup(dirs, chain, root, state).contains_key(chain[0]) && severity(rollup(dirs, chain, root, state)[chain[0]]) >= severity(state),
    decreases chain.len(),
{
    let r = rollup(dirs, chain, root, state);
    if chain.len() > 0 && text_starts_with(chain[0], root) {
        let d2 = dirs.insert(chain[0], worse(dirs, chain[0], state));
        assert(severity(d2[chain[0]]) >= severity(state));
        assert forall|k: Seq<char>| #[trigger] dirs.contains_key(k) implies d2.contains_key(k) && severity(d2[k]) >= severity(dirs[k]) by {
        }
        if chain[0] != root {
            lemma_rollup_shows_the_worst(d2, chain.skip(1), root, state);
            assert(r == rollup(d2, chain.skip(1), root, state));
            assert(d2.contains_key(chain[0]));
        } else {
            assert(r == d2);
        }
    } else {
        assert(r == dirs);
    }
}

/// Whether rolling a change up `chain` (ancestors, nearest first, in normal
/// form) reaches the directory `d`: `d` comes before the chain leaves
/// `root` and no later than `root` itself.
pub open spec fn rolls_into(chain: Seq<Seq<char>>, root: Seq<char>, d: Seq<char>) -> bool
    decreases chain.len(),
{
    chain.len() > 0 && text_starts_with(chain[0], root) && (chain[0] == d || (chain[0] != root && rolls_into(chain.skip(1), root, d)))
}

/// One rollup, read at a single directory: reached, it shows the worse of
/// what it showed and the new state; otherwise it is untouched.
pub proof fn lemma_rollup_at(dirs: Map<Seq<char>, State>, chain: Seq<Seq<char>>, root: Seq<char>, state: State, d: Seq<char>)
    ensures
        rollup(dirs, chain, root, state).contains_key(d) == (dirs.contains_key(d) || rolls_into(chain, root, d)),
        rollup(dirs, chain, root, state).contains_key(d) ==> rollup(dirs, chain, root, state)[d]
            == if rolls_into(chain, root, d) { worse(dirs, d, state) } else { dirs[d] },
    decreases chain.len(),
{
    if chain.len() > 0 && text_starts_with(chain[0], root) {
        let d2 = dirs.insert(chain[0], worse(dirs, chain[0], state));
        if chain[0] != root {
            lemma_rollup_at(d2, chain.skip(1), root, state, d);
        }
    }
}

/// The tally of `states`, one count per path.
pub open spec fn tally(states: Seq<State>) -> Counts
    decreases states.len(),
{
    if states.len() == 0 { empty_model().counts } else { bump(tally(states.drop_last()), states.last()) }
}

/// Recording the changes `paths[i]` in `states[i]`, in order, under `root`.
pub open spec fn insert_all(m: StatusModel, paths: Seq<Seq<char>>, states: Seq<State>, root: Seq<char>) -> StatusModel
    decreases paths.len(),
{
    if paths.len() == 0 || states.len() == 0 {
        m
    } else {
        insert_model(insert_all(m, paths.drop_last(), states.drop_last(), root), paths.last(), states.last(), root)
    }
}

/// The state the directory `d` (in normal form) shows after the changes:
/// the most severe among those that roll into it — the earliest on a tie —
/// or nothing when none does.
pub open spec fn rolled_state(paths: Seq<Seq<char>>, states: Seq<State>, root: Seq<char>, d: Seq<char>) -> Option<State>
    decreases paths.len(),
{
    if paths.len() == 0 || states.len() == 0 {
        None
    } else {
        let before = rolled_state(paths.drop_last(), states.drop_last(), root, d);
        let st = states.last();
        if rolls_into(strict_ancestors(canon(paths.last())), canon(root), d) {
            match before {
                Some(a) => Some(if severity(st) > severity(a) { st } else { a }),
                None => Some(st),
            }
        } else {
            before
        }
    }
}

/// The most severe state among the changes lying strictly below the
/// directory `d` (in normal form) — the earliest on a tie — or nothing.
pub open spec fn worst_below(paths: Seq<Seq<char>>, states: Seq<State>, d: Seq<char>) -> Option<State>
    decreases paths.len(),
{
    if paths.len() == 0 || states.len() == 0 {
        None
    } else {
        let before = worst_below(paths.drop_last(), states.drop_last(), d);
        let st = states.last();
        if strict_ancestors(canon(paths.last())).contains(d) {
            match before {
                Some(a) => Some(if severity(st) > severity(a) { st } else { a }),
                None => Some(st),
            }
        } else {
            before
        }
    }
}

proof fn lemma_rolled_is_worst_below(paths: Seq<Seq<char>>, states: Seq<State>, root: Seq<char>, d: Seq<char>)
    requires
        paths.len() == states.len(),
        forall|i: int| 0 <= i < paths.len() ==> path_starts_with(#[trigger] paths[i], root) && canon(paths[i]) != canon(root),
        text_starts_with(d, canon(root)),
    ensures
        rolled_state(paths, states, root, d) == worst_below(paths, states, d),
    decreases paths.len(),
{
    if paths.len() > 0 {
        let pp = paths.drop_last();
        assert forall|i: int| 0 <= i < pp.len() implies path_starts_with(#[trigger] pp[i], root) && canon(pp[i]) != canon(root) by {
            assert(pp[i] == paths[i]);
        }
        lemma_rolled_is_worst_below(pp, states.drop_last(), root, d);
        let last = paths[paths.len() - 1];
        assert(path_starts_with(last, root));
        crate::path::lemma_canon_tidy(last);
        crate::path::lemma_canon_tidy(root);
        lemma_rolls_into_ancestors(canon(last), canon(root), d);
    }
}

proof fn lemma_insert_all_shape(paths: Seq<Seq<char>>, states: Seq<State>, root: Seq<char>)
    requires
        paths.len() == states.len(),
        paths.len() < usize::MAX,
    ensures ({
        let m = insert_all(empty_model(), paths, states, root);
        &&& m.untracked == Seq::<Seq<char>>::empty()
        &&& m.counts == tally(states)
        &&& counts_total(m.counts) == paths.len()
        &&& forall|x: Seq<char>| #[trigger] m.files.contains_key(x) <==> exists|i: int| 0 <= i < paths.len() && canon(paths[i]) == x
        &&& forall|i: int| 0 <= i < paths.len() && (forall|j: int| i < j < paths.len() ==> canon(paths[j]) != canon(paths[i]))
            ==> #[trigger] m.files[canon(paths[i])] == states[i]
        &&& forall|x: Seq<char>| #[trigger] m.dirs.contains_key(x) == (rolled_state(paths, states, root, x) is Some)
        &&& forall|x: Seq<char>| m.dirs.contains_key(x) ==> Some(#[trigger] m.dirs[x]) == rolled_state(paths, states, root, x)
    }),
    decreases paths.len(),
{
    if paths.len() > 0 {
        let pp = paths.drop_last();
        let ss = states.drop_last();
        lemma_insert_all_shape(pp, ss, root);
        let m0 = insert_all(empty_model(), pp, ss, root);
        let m = insert_all(empty_model(), paths, states, root);
        let q = canon(paths.last());
        let st = states.last();
        assert(m == insert_model(m0, paths.last(), st, root));
        assert forall|x: Seq<char>| #[trigger] m.files.contains_key(x) <==> exists|i: int| 0 <= i < paths.len() && canon(paths[i]) == x by {
            if m0.files.contains_key(x) {
                let i = choose|i: int| 0 <= i < pp.len() && canon(pp[i]) == x;
                assert(canon(paths[i]) == x);
            }
            if exists|i: int| 0 <= i < paths.len() && canon(paths[i]) == x {
                let i = choose|i: int| 0 <= i < paths.len() && canon(paths[i]) == x;
                if i < pp.len() {
                    assert(canon(pp[i]) == x);
                }
            }
        }
        assert forall|i: int| 0 <= i < paths.len() && (forall|j: int| i < j < paths.len() ==> canon(paths[j]) != canon(paths[i]))
            implies #[trigger] m.files[canon(paths[i])] == states[i] by {
            if i < pp.len() {
                assert(canon(paths[paths.len() - 1]) != canon(paths[i]));
                assert forall|j: int| i < j < pp.len() implies canon(pp[j]) != canon(pp[i]) by {
                    assert(pp[j] == paths[j]);
                }
                assert(pp[i] == paths[i]);
            }
        }
        assert forall|x: Seq<char>| #[trigger] m.dirs.contains_key(x) == (rolled_state(paths, states, root, x) is Some) by {
            lemma_rollup_at(m0.dirs, strict_ancestors(q), canon(root), st, x);
        }
        assert forall|x: Seq<char>| m.dirs.contains_key(x) implies Some(#[trigger] m.dirs[x]) == rolled_state(paths, states, root, x) by {
            lemma_rollup_at(m0.dirs, strict_ancestors(q), canon(root), st, x);
        }
    }
}

/// After recording distinct changed paths one by one into an empty status:
/// each path shows its own state, the counts tally the states, and any
/// other path shows the most severe state among the changes that roll up
/// into it — nothing when none does. A path that shows a state that way
/// lies inside the root and above one of the changed paths; and when every
/// change lies strictly inside the root, a path inside it shows the most
/// severe state among the changes strictly below it, and a path outside
/// shows nothing.
pub proof fn lemma_status_after_inserts(paths: Seq<Seq<char>>, states: Seq<State>, root: Seq<char>, other: Seq<char>)
    requires
        paths.len() == states.len(),
        paths.len() < usize::MAX,
        forall|i: int, j: int| 0 <= i < j < paths.len() ==> canon(#[trigger] paths[i]) != canon(#[trigger] paths[j]),
    ensures ({
        let m = insert_all(empty_model(), paths, states, root);
        &&& m.counts == tally(states)
        &&& counts_total(m.counts) == paths.len()
        &&& forall|i: int| 0 <= i < paths.len() ==> lookup(m, #[trigger] paths[i]) == Some(states[i])
        &&& (forall|i: int| 0 <= i < paths.len() ==> canon(#[trigger] paths[i]) != canon(other))
            ==> lookup(m, other) == rolled_state(paths, states, root, canon(other))
        &&& (forall|i: int| 0 <= i < paths.len() ==> canon(#[trigger] paths[i]) != canon(other)) && lookup(m, other) is Some
            ==> text_starts_with(canon(other), canon(root))
                && exists|i: int| 0 <= i < paths.len() && strict_ancestors(canon(#[trigger] paths[i])).contains(canon(other))
        &&& (forall|i: int| 0 <= i < paths.len() ==> path_starts_with(#[trigger] paths[i], root) && !crate::path::same_path(paths[i], root))
            && (forall|i: int| 0 <= i < paths.len() ==> canon(#[trigger] paths[i]) != canon(other))
            ==> lookup(m, other) == if path_starts_with(other, root) { worst_below(paths, states, canon(other)) } else { None }
    }),
{
    lemma_insert_all_shape(paths, states, root);
    let m = insert_all(empty_model(), paths, states, root);
    assert forall|i: int| 0 <= i < paths.len() implies lookup(m, #[trigger] paths[i]) == Some(states[i]) by {
        assert(m.files.contains_key(canon(paths[i])));
        assert(forall|j: int| i < j < paths.len() ==> canon(paths[j]) != canon(paths[i]));
    }
    if forall|i: int| 0 <= i < paths.len() ==> canon(#[trigger] paths[i]) != canon(other) {
        assert(!m.files.contains_key(canon(other)));
        assert(!any_untracked(strict_ancestors(canon(other)), m.untracked)) by {
            lemma_none_untracked(strict_ancestors(canon(other)));
        }
        lemma_rolled_state_has_a_source(paths, states, root, canon(other));
        if lookup(m, other) is Some {
            let i = choose|i: int| 0 <= i < paths.len() && rolls_into(strict_ancestors(canon(#[trigger] paths[i])), canon(root), canon(other));
            lemma_rolls_into_inside(strict_ancestors(canon(paths[i])), canon(root), canon(other));
        }
        if (forall|i: int| 0 <= i < paths.len() ==> path_starts_with(#[trigger] paths[i], root) && !crate::path::same_path(paths[i], root))
            && path_starts_with(other, root) {
            lemma_rolled_is_worst_below(paths, states, root, canon(other));
        }
    }
}

/// A change rolls only into directories on its own chain, inside the root.
proof fn lemma_rolls_into_inside(chain: Seq<Seq<char>>, root: Seq<char>, d: Seq<char>)
    ensures
        rolls_into(chain, root, d) ==> chain.contains(d) && text_starts_with(d, root),
    decreases chain.len(),
{
    if chain.len() > 0 && text_starts_with(chain[0], root) && chain[0] != d && chain[0] != root {
        lemma_rolls_into_inside(chain.skip(1), root, d);
        if rolls_into(chain.skip(1), root, d) {
            let k = choose|k: int| 0 <= k < chain.skip(1).len() && chain.skip(1)[k] == d;
            assert(chain[k + 1] == d);
        }
    } else if chain.len() > 0 && chain[0] == d {
        assert(chain[0] == d);
    }
}

/// A directory shows a rolled-up state only when some change rolls into it.
proof fn lemma_rolled_state_has_a_source(paths: Seq<Seq<char>>, states: Seq<State>, root: Seq<char>, d: Seq<char>)
    requires
        paths.len() == states.len(),
    ensures
        rolled_state(paths, states, root, d) is Some ==>
            exists|i: int| 0 <= i < paths.len() && rolls_into(strict_ancestors(canon(#[trigger] paths[i])), canon(root), d),
    decreases paths.len(),
{
    if paths.len() > 0 {
        lemma_rolled_state_has_a_source(paths.drop_last(), states.drop_last(), root, d);
        if rolled_state(paths.drop_last(), states.drop_last(), root, d) is Some {
            let i = choose|i: int| 0 <= i < paths.drop_last().len() && rolls_into(strict_ancestors(canon(#[trigger] paths.drop_last()[i])), canon(root), d);
            assert(paths[i] == paths.drop_last()[i]);
        } else if rolled_state(paths, states, root, d) is Some {
            assert(paths[paths.len() - 1] == paths.last());
        }
    }
}

/// Up the ancestors of a path in normal form strictly inside `root`, a
/// change rolls into exactly those ancestors that lie inside `root`.
pub proof fn lemma_rolls_into_ancestors(q: Seq<char>, root: Seq<char>, d: Seq<char>)
    requires
        tidy(q),
        tidy(root),
        text_starts_with(q, root),
        q != root,
    ensures
        rolls_into(strict_ancestors(q), root, d) <==> (strict_ancestors(q).contains(d) && text_starts_with(d, root)),
    decreases q.len(),
{
    lemma_rolls_into_inside(strict_ancestors(q), root, d);
    if strict_ancestors(q).contains(d) && text_starts_with(d, root) {
        lemma_parent_shorter(q);
        let chain = strict_ancestors(q);
        let a0 = parent_of(q)->0;
        assert(chain == seq![a0] + strict_ancestors(a0));
        crate::path::lemma_parent_stays_inside(q, root);
        if a0 != d {
            let k = choose|k: int| 0 <= k < chain.len() && chain[k] == d;
            assert(k > 0);
            assert(strict_ancestors(a0)[k - 1] == d);
            assert(strict_ancestors(a0).contains(d));
            if a0 == root {
                crate::path::lemma_ancestors_shorter(a0);
                assert(d.len() < root.len());
                if root.len() == 0 {
                    assert(parent_of(root) is None);
                } else if root.len() == 1 && root[0] == '/' {
                    assert(root.drop_last() =~= Seq::<char>::empty());
                    assert(trim_end_seps(root) == trim_end_seps(root.drop_last()));
                    assert(parent_of(root) is None);
                } else {
                    crate::path::lemma_shorter_not_inside(d, root);
                }
            } else {
                crate::path::lemma_parent_tidy(q);
                lemma_rolls_into_ancestors(a0, root, d);
                assert(chain.skip(1) =~= strict_ancestors(a0));
            }
        }
    }
}

proof fn lemma_none_untracked(chain: Seq<Seq<char>>)
    ensures
        !any_untracked(chain, Seq::empty()),
    decreases chain.len(),
{
    if chain.len() > 0 {
        lemma_none_untracked(chain.skip(1));
    }
}

/// Inserting a changed path marks it, counts it once, and changes no
/// directory outside the root.
pub proof fn lemma_insert_marks_the_path(m: StatusModel, path: Seq<char>, state: State, root: Seq<char>)
    requires
        counts_total(m.counts) < usize::MAX,
    ensures
        lookup(insert_model(m, path, state, root), path) == Some(state),
        counts_total(insert_model(m, path, state, root).counts) == counts_total(m.counts) + 1,
        forall|k: Seq<char>| #[trigger] insert_model(m, path, state, root).dirs.contains_key(k) && !m.dirs.contains_key(k) ==> text_starts_with(k, canon(root)),
{
    lemma_rollup_stays_inside_root(m.dirs, strict_ancestors(canon(path)), canon(root), state);
}

/// Every changed path, from what `git status --porcelain=v2 -z` printed:
/// nothing when git could not be run.
pub fn status(output: Option<&str>, root: &str) -> (r: Status)
    ensures
        r.wf(),
        r.model() == match output {
            Some(raw) => status_of_porcelain(raw@, root@),
            None => empty_model(),
        },
{
    match output {
        Some(raw) => parse_status(raw, root),
        None => Status::default(),
    }
}

/// The diff of one path, from what `git diff HEAD` printed (`None` when git
/// failed). A binary file gives no hunks at all, which is a fact about the
/// file rather than a preview of it: that is `None` too.
pub fn diff(output: Option<&str>) -> (r: Option<Diff>)
    requires
        output matches Some(raw) ==> numbers_fit(raw@, MAX_DIFF_LINES as int),
    ensures
        match output {
            None => r is None,
            Some(raw) => {
                let hunks = finish(parsed(raw@, MAX_DIFF_LINES as int).hunks);
                match r {
                    None => hunks.len() == 0,
                    Some(d) => {
                        &&& hunks.len() > 0
                        &&& hunks_view(d.hunks@) == hunks
                        &&& d.truncated == parsed(raw@, MAX_DIFF_LINES as int).truncated
                        &&& d.added == parsed(raw@, MAX_DIFF_LINES as int).added
                        &&& d.removed == parsed(raw@, MAX_DIFF_LINES as int).removed
                    },
                }
            },
        },
{
    match output {
        None => None,
        Some(raw) => {
            let d = parse_diff(raw, MAX_DIFF_LINES);
            if d.hunks.len() == 0 {
                None
            } else {
                Some(d)
            }
        },
    }
}

/// The non-blank lines of `lines`, trimmed.
pub open spec fn branch_names(lines: Seq<Seq<char>>) -> Seq<Seq<char>>
    decreases lines.len(),
{
    if lines.len() == 0 {
        Seq::empty()
    } else {
        let t = trim_ws(lines[0]);
        let rest = branch_names(lines.skip(1));
        if t.len() == 0 {
            rest
        } else {
            seq![t] + rest
        }
    }
}

/// Local branches, from what `git for-each-ref --format=%(refname:short)`
/// printed: one per line, trimmed, blank lines dropped.
pub fn branches(output: &str) -> (r: Vec<String>)
    ensures
        views_of(r@) == branch_names(lines_of(output@)),
{
    let cs = chars_of(output);
    let ls = split_lines(&cs);
    let ghost all = views(ls@);
    let mut out: Vec<String> = Vec::new();
    let mut i: usize = 0;
    assert(all.skip(0) =~= all);
    assert(views_of(out@) =~= Seq::<Seq<char>>::empty());
    while i < ls.len()
        invariant
            i <= ls@.len(),
            all == views(ls@),
            all == lines_of(output@),
            branch_names(all) == views_of(out@) + branch_names(all.skip(i as int)),
        decreases ls@.len() - i,
    {
        let l = &ls[i];
        assert(all.skip(i as int)[0] == l@);
        assert(all.skip(i as int).skip(1) =~= all.skip(i + 1));
        assert(l@.subrange(0, l@.len() as int) =~= l@);
        let (a, b) = trim_bounds(l, 0, l.len());
        if a < b {
            let name = string_of(l, a, b);
            let ghost before = views_of(out@);
            out.push(name);
            assert(views_of(out@) =~= before + seq![name@]);
        }
        i += 1;
    }
    out
}

pub open spec fn dash_first(branch: Seq<char>) -> bool {
    branch.len() > 0 && branch[0] == '-'
}

/// Whether a switch to `branch` may be attempted at all: a name that starts
/// with a dash would be read by git as an option.
pub fn switch(branch: &str) -> (r: Result<(), String>)
    ensures
        match r {
            Ok(()) => !dash_first(branch@),
            Err(m) => dash_first(branch@) && m@ == "a branch name cannot begin with a dash"@,
        },
{
    let cs = chars_of(branch);
    if cs.len() > 0 && cs[0] == '-' {
        Err(String::from_str("a branch name cannot begin with a dash"))
    } else {
        Ok(())
    }
}

/// What a `git switch` that ran comes to. git writes a refusal to stderr,
/// and it is passed on verbatim rather than paraphrased.
pub fn switch_outcome(success: bool, stderr: &str) -> (r: Result<(), String>)
    ensures
        success ==> r is Ok,
        !success ==> (r matches Err(m) && m@ == (if trim_ws(stderr@).len() == 0 {
            "git refused the switch and said nothing"@
        } else {
            trim_ws(stderr@)
        })),
{
    if success {
        return Ok(());
    }
    let cs = chars_of(stderr);
    assert(cs@.subrange(0, cs@.len() as int) =~= cs@);
    let (a, b) = trim_bounds(&cs, 0, cs.len());
    if a == b {
        Err(String::from_str("git refused the switch and said nothing"))
    } else {
        Err(string_of(&cs, a, b))
    }
}

/// Bytes of the `HEAD` version read to colour removed lines.
pub const MAX_BLOB_BYTES: usize = 2097152;

/// `path` relative to `root`, as `Path::strip_prefix` gives it: when
/// `root`'s components begin `path`'s, the text after them.
pub open spec fn relative_of(path: Seq<char>, root: Seq<char>) -> Option<Seq<char>> {
    crate::path::strip_path_prefix(path, root)
}

/// `path` relative to `root`: `None` when it lies outside.
pub fn relative_path(root: &str, path: &str) -> (r: Option<String>)
    ensures
        match r {
            Some(rel) => relative_of(path@, root@) == Some(rel@),
            None => relative_of(path@, root@) is None,
        },
{
    crate::path::strip_path(path, root)
}

/// The object git is asked for to get the `HEAD` version of `path`:
/// `HEAD:<path relative to the root>`. `None` outside the repository.
pub fn blob_at_head(root: &str, path: &str) -> (r: Option<String>)
    ensures
        match r {
            Some(spec) => relative_of(path@, root@) matches Some(rel) && spec@ == "HEAD:"@ + rel,
            None => relative_of(path@, root@) is None,
        },
{
    match relative_path(root, path) {
        Some(rel) => Some(concat("HEAD:", rel.as_str())),
        None => None,
    }
}

/// Whether what `git show` printed is kept: it ran, and it is small enough
/// to hand to a syntax parser.
pub fn blob_fits(success: bool, len: usize) -> (r: bool)
    ensures
        r == (success && len <= MAX_BLOB_BYTES),
{
    success && len <= MAX_BLOB_BYTES
}

/// One lookup in the cache, from `known` after `walks` walks to `after`
/// after `walks_after`, answering `r` for the directory `key`: a known
/// directory is answered from the cache, changing nothing; an unknown one
/// costs a walk and its answer is kept.
pub open spec fn answered(known: Map<Seq<char>, Option<Repo>>, walks: int, key: Seq<char>, r: Option<Repo>,
    after: Map<Seq<char>, Option<Repo>>, walks_after: int) -> bool {
    if known.contains_key(key) {
        r == known[key] && after == known && walks_after == walks
    } else {
        after == known.insert(key, r) && walks_after == walks + 1
    }
}

/// Over any run of lookups, where `states[i]` is the cache before the
/// `i`th and `states[i + 1]` after it: a directory asked about again gets
/// the answer it got the first time, every directory asked about stays
/// known, and the walks made are at most the lookups.
pub proof fn lemma_cached_answers_are_kept(
    states: Seq<(Map<Seq<char>, Option<Repo>>, int)>,
    keys: Seq<Seq<char>>,
    answers: Seq<Option<Repo>>,
)
    requires
        states.len() == keys.len() + 1,
        answers.len() == keys.len(),
        forall|i: int| 0 <= i < keys.len() ==> #[trigger] answered(states[i].0, states[i].1, keys[i], answers[i], states[i + 1].0, states[i + 1].1),
    ensures
        forall|j: int, i: int| 0 <= j < i < keys.len() && keys[j] == keys[i] ==> answers[i] == answers[j],
        forall|i: int| 0 <= i < keys.len() ==> #[trigger] states.last().0.contains_key(keys[i]),
        states.last().1 - states[0].1 <= keys.len(),
{
    lemma_cache_run(states, keys, answers, keys.len() as int);
    assert forall|j: int, i: int| 0 <= j < i < keys.len() && keys[j] == keys[i] implies answers[i] == answers[j] by {
        lemma_cache_run(states, keys, answers, i);
        assert(answered(states[i].0, states[i].1, keys[i], answers[i], states[i + 1].0, states[i + 1].1));
    }
}

proof fn lemma_cache_run(
    states: Seq<(Map<Seq<char>, Option<Repo>>, int)>,
    keys: Seq<Seq<char>>,
    answers: Seq<Option<Repo>>,
    k: int,
)
    requires
        states.len() == keys.len() + 1,
        answers.len() == keys.len(),
        forall|i: int| 0 <= i < keys.len() ==> #[trigger] answered(states[i].0, states[i].1, keys[i], answers[i], states[i + 1].0, states[i + 1].1),
        0 <= k <= keys.len(),
    ensures
        forall|j: int| 0 <= j < k ==> #[trigger] states[k].0.contains_key(keys[j]) && states[k].0[keys[j]] == answers[j],
        states[k].1 - states[0].1 <= k,
    decreases k,
{
    if k > 0 {
        lemma_cache_run(states, keys, answers, k - 1);
        let i = k - 1;
        assert(answered(states[i].0, states[i].1, keys[i], answers[i], states[i + 1].0, states[i + 1].1));
        assert(i + 1 == k);
        assert forall|j: int| 0 <= j < k implies #[trigger] states[k].0.contains_key(keys[j]) && states[k].0[keys[j]] == answers[j] by {
            if j < k - 1 {
                assert(states[k - 1].0.contains_key(keys[j]));
            }
        }
    }
}

/// Repository discovery, with the negative results kept: most directories
/// are not in a repository, and without this every navigation would walk up
/// to `/`.
pub struct Cache {
    known: Table<Option<Repo>>,
    walks: u64,
}

impl Cache {
    pub closed spec fn wf(&self) -> bool {
        self.known.wf()
    }

    /// What has been looked up, by directory in normal form.
    pub closed spec fn known(&self) -> Map<Seq<char>, Option<Repo>> {
        self.known.view()
    }

    /// How many times the filesystem was actually walked.
    pub closed spec fn walk_count(&self) -> int {
        self.walks as int
    }

    pub fn new() -> (c: Self)
        ensures
            c.wf(),
            c.known() == Map::<Seq<char>, Option<Repo>>::empty(),
            c.walk_count() == 0,
    {
        Cache { known: Table::new(), walks: 0 }
    }

    /// The repository containing `dir`, if any: the cached answer when there
    /// is one, else `discover(dir)`, which is then kept. Directories are
    /// keyed by their normal form, so `a/b/` and `a//b` share an answer.
    pub fn repo_for<F: Fn(&str) -> Option<Repo>>(&mut self, dir: &str, discover: F) -> (r: Option<Repo>)
        requires
            old(self).wf(),
            old(self).walk_count() < u64::MAX,
            call_requires(discover, (dir,)),
        ensures
            final(self).wf(),
            answered(old(self).known(), old(self).walk_count(), canon(dir@), r, final(self).known(), final(self).walk_count()),
            !old(self).known().contains_key(canon(dir@)) ==> call_ensures(discover, (dir,), r),
    {
        let key = canonical(dir);
        match self.known.get(key.as_str()) {
            Some(Some(repo)) => return Some(repo.clone()),
            Some(None) => return None,
            None => {},
        }
        self.walks = self.walks + 1;
        let found = discover(dir);
        let kept = match &found {
            Some(repo) => Some(repo.clone()),
            None => None,
        };
        self.known.set(key, kept);
        found
    }

    /// Forget every answer: a `git init` or a removed `.git` turns a cached
    /// one into a wrong one.
    pub fn clear(&mut self)
        requires
            old(self).wf(),
        ensures
            final(self).wf(),
            final(self).known() == Map::<Seq<char>, Option<Repo>>::empty(),
            final(self).walk_count() == old(self).walk_count(),
    {
        self.known = Table::new();
    }

    pub fn walks(&self) -> (n: u64)
        ensures
            n == self.walk_count(),
    {
        self.walks
    }
}

/// `str::strip_prefix`.
pub open spec fn strip_prefix(s: Seq<char>, prefix: Seq<char>) -> Option<Seq<char>> {
    if prefix.len() <= s.len() && s.take(prefix.len() as int) == prefix {
        Some(s.skip(prefix.len() as int))
    } else {
        None
    }
}

/// Where `cs[from..to]` goes on after `prefix`, when it begins with it.
fn after_prefix(cs: &Vec<char>, from: usize, to: usize, prefix: &str) -> (r: Option<usize>)
    requires
        from <= to <= cs@.len(),
    ensures
        match r {
            Some(k) => from <= k <= to && strip_prefix(cs@.subrange(from as int, to as int), prefix@)
                == Some(cs@.subrange(k as int, to as int)),
            None => strip_prefix(cs@.subrange(from as int, to as int), prefix@) is None,
        },
{
    let ps = chars_of(prefix);
    let ghost s = cs@.subrange(from as int, to as int);
    if ps.len() <= to - from && crate::text::matches_at(cs, from, &ps) {
        assert(s.take(ps@.len() as int) =~= cs@.subrange(from as int, from + ps@.len()));
        assert(s.skip(ps@.len() as int) =~= cs@.subrange(from + ps@.len(), to as int));
        Some(from + ps.len())
    } else {
        proof {
            if ps@.len() <= s.len() {
                assert(s.take(ps@.len() as int) =~= cs@.subrange(from as int, from + ps@.len()));
            }
        }
        None
    }
}

/// The branch `HEAD` names: `ref: refs/heads/<name>`, trimmed; `None` when
/// it holds a raw object id or another kind of ref.
pub open spec fn symbolic_of(head_text: Seq<char>) -> Option<Seq<char>> {
    match strip_prefix(trim_ws(head_text), "ref:"@) {
        Some(rest) => strip_prefix(trim_ws(rest), "refs/heads/"@),
        None => None,
    }
}

/// The branch name in the text of `HEAD`, or `None` when it holds a raw
/// object id.
pub fn symbolic_head(head_text: &str) -> (r: Option<String>)
    ensures
        match r {
            Some(name) => symbolic_of(head_text@) == Some(name@),
            None => symbolic_of(head_text@) is None,
        },
{
    let cs = chars_of(head_text);
    assert(cs@.subrange(0, cs@.len() as int) =~= cs@);
    let (a, b) = trim_bounds(&cs, 0, cs.len());
    let k = match after_prefix(&cs, a, b, "ref:") {
        Some(k) => k,
        None => return None,
    };
    let (c, d) = trim_bounds(&cs, k, b);
    match after_prefix(&cs, c, d, "refs/heads/") {
        Some(m) => Some(string_of(&cs, m, d)),
        None => None,
    }
}

/// What a rebase's `head-name` file says, trimmed and without its
/// `refs/heads/`.
pub open spec fn rebase_name_of(text: Seq<char>) -> Seq<char> {
    match strip_prefix(trim_ws(text), "refs/heads/"@) {
        Some(name) => name,
        None => trim_ws(text),
    }
}

/// The branch a rebase is replaying, from the first `head-name` file that
/// could be read (`rebase-merge`'s, else `rebase-apply`'s).
pub fn rebase_branch(head_name: Option<&str>) -> (r: Option<String>)
    ensures
        match head_name {
            Some(text) => r matches Some(name) && name@ == rebase_name_of(text@),
            None => r is None,
        },
{
    let text = match head_name {
        Some(t) => t,
        None => return None,
    };
    let cs = chars_of(text);
    assert(cs@.subrange(0, cs@.len() as int) =~= cs@);
    let (a, b) = trim_bounds(&cs, 0, cs.len());
    match after_prefix(&cs, a, b, "refs/heads/") {
        Some(m) => Some(string_of(&cs, m, b)),
        None => Some(string_of(&cs, a, b)),
    }
}

/// `s` ends with `suffix`.
pub open spec fn ends_with(s: Seq<char>, suffix: Seq<char>) -> bool {
    suffix.len() <= s.len() && s.skip(s.len() - suffix.len()) == suffix
}

/// `packed-refs` lists the branch `name`: one of its lines ends with
/// ` refs/heads/<name>`.
pub open spec fn packed_lists(packed: Seq<char>, name: Seq<char>) -> bool {
    exists|i: int| 0 <= i < lines_of(packed).len() && ends_with(#[trigger] lines_of(packed)[i], " refs/heads/"@ + name)
}

/// Whether the text of `packed-refs` lists the branch `name`.
pub fn packed_ref_listed(packed: &str, name: &str) -> (r: bool)
    ensures
        r == packed_lists(packed@, name@),
{
    let cs = chars_of(packed);
    let ls = split_lines(&cs);
    let suffix = concat(" refs/heads/", name);
    let sv = chars_of(suffix.as_str());
    let ghost lv = views(ls@);
    let mut i: usize = 0;
    while i < ls.len()
        invariant
            i <= ls@.len(),
            lv == views(ls@),
            lv == lines_of(packed@),
            sv@ == " refs/heads/"@ + name@,
            forall|k: int| 0 <= k < i ==> !ends_with(#[trigger] lv[k], sv@),
        decreases ls@.len() - i,
    {
        let line = &ls[i];
        assert(lv[i as int] == line@);
        if sv.len() <= line.len() && crate::text::matches_at(line, line.len() - sv.len(), &sv) {
            assert(line@.skip(line@.len() - sv@.len()) =~= line@.subrange(line@.len() - sv@.len(), line@.len() as int));
            assert(ends_with(lv[i as int], sv@));
            return true;
        }
        proof {
            if sv@.len() <= line@.len() {
                assert(line@.skip(line@.len() - sv@.len()) =~= line@.subrange(line@.len() - sv@.len(), line@.len() as int));
            }
        }
        i += 1;
    }
    false
}

/// Whether the branch `name` resolves in the repository whose refs live in
/// `common_dir`: a loose `refs/heads/<name>` on disk, or a line of the
/// `packed-refs` text (`None` when there is none).
pub fn ref_exists(common_dir: &str, name: &str, packed_refs: Option<&str>) -> (r: bool)
    ensures
        (packed_refs matches Some(p) && packed_lists(p@, name@)) ==> r,
{
    let heads = join(common_dir, "refs/heads");
    let loose = join(heads.as_str(), name);
    if crate::probe::path_exists(loose.as_str()) {
        return true;
    }
    match packed_refs {
        Some(p) => packed_ref_listed(p, name),
        None => false,
    }
}

/// The first seven characters of a trimmed object id.
pub open spec fn short_oid(text: Seq<char>) -> Seq<char> {
    if trim_ws(text).len() <= 7 { trim_ws(text) } else { trim_ws(text).take(7) }
}

/// Where `HEAD` is, from what lies in the git directory: a rebase in
/// progress (with the text of its `head-name`, if one could be read), a
/// `MERGE_HEAD`, the text of `HEAD` (`None` when it could not be read) and
/// whether the branch it names exists. An interrupted operation outranks
/// the branch name.
pub fn head_of(rebasing: bool, rebase_head_name: Option<&str>, merging: bool, head_text: Option<&str>, branch_exists: bool)
    -> (r: Head)
    ensures
        rebasing ==> match rebase_head_name {
            Some(t) => r matches Head::Rebasing(Some(n)) && n@ == rebase_name_of(t@),
            None => r matches Head::Rebasing(None),
        },
        !rebasing && merging ==> match head_text {
            Some(t) => match symbolic_of(t@) {
                Some(name) => r matches Head::Merging(Some(n)) && n@ == name,
                None => r matches Head::Merging(None),
            },
            None => r matches Head::Merging(None),
        },
        !rebasing && !merging ==> match head_text {
            Some(t) => match symbolic_of(t@) {
                Some(name) => if branch_exists {
                    r matches Head::Branch(n) && n@ == name
                } else {
                    r matches Head::Unborn(n) && n@ == name
                },
                None => r matches Head::Detached(oid) && oid@ == short_oid(t@),
            },
            None => r matches Head::Detached(oid) && oid@.len() == 0,
        },
{
    if rebasing {
        return Head::Rebasing(rebase_branch(rebase_head_name));
    }
    let name = match head_text {
        Some(t) => symbolic_head(t),
        None => None,
    };
    if merging {
        return Head::Merging(name);
    }
    match name {
        Some(n) => {
            if branch_exists {
                Head::Branch(n)
            } else {
                Head::Unborn(n)
            }
        },
        None => {
            match head_text {
                Some(t) => {
                    let cs = chars_of(t);
                    assert(cs@.subrange(0, cs@.len() as int) =~= cs@);
                    let (a, b) = trim_bounds(&cs, 0, cs.len());
                    let end = if b - a <= 7 { b } else { a + 7 };
                    assert(b - a > 7 ==> cs@.subrange(a as int, b as int).take(7) =~= cs@.subrange(a as int, a + 7));
                    Head::Detached(string_of(&cs, a, end))
                },
                None => Head::Detached(String::new()),
            }
        },
    }
}

/// Where a `.git` *file* points: `gitdir: <path>`, the path trimmed and
/// taken from the working tree root when relative. `None` when the file
/// says something else.
pub open spec fn gitdir_of(root: Seq<char>, text: Seq<char>) -> Option<Seq<char>> {
    match strip_prefix(text, "gitdir:"@) {
        Some(rest) => Some(join_of(root, trim_ws(rest))),
        None => None,
    }
}

/// The git directory a linked worktree's or submodule's `.git` file names.
pub fn gitdir_target(root: &str, text: &str) -> (r: Option<String>)
    ensures
        match r {
            Some(dir) => gitdir_of(root@, text@) == Some(dir@),
            None => gitdir_of(root@, text@) is None,
        },
{
    let cs = chars_of(text);
    assert(cs@.subrange(0, cs@.len() as int) =~= cs@);
    let k = match after_prefix(&cs, 0, cs.len(), "gitdir:") {
        Some(k) => k,
        None => return None,
    };
    let (a, b) = trim_bounds(&cs, k, cs.len());
    let target = string_of(&cs, a, b);
    Some(join(root, target.as_str()))
}

/// Where refs live: what `commondir` says (trimmed, taken from the git
/// directory when relative), or the git directory itself when there is no
/// such file.
pub open spec fn common_dir_of(git_dir: Seq<char>, commondir: Option<Seq<char>>) -> Seq<char> {
    match commondir {
        Some(text) => join_of(git_dir, trim_ws(text)),
        None => git_dir,
    }
}

/// The repository rooted at `root` whose git directory is `git_dir`, given
/// the text of its `commondir` file when it has one.
pub fn repo_at(root: &str, git_dir: &str, commondir: Option<&str>) -> (r: Repo)
    ensures
        r.root@ == root@,
        r.git_dir@ == git_dir@,
        r.common_dir@ == common_dir_of(git_dir@, match commondir { Some(t) => Some(t@), None => None }),
{
    let common = match commondir {
        Some(text) => {
            let cs = chars_of(text);
            assert(cs@.subrange(0, cs@.len() as int) =~= cs@);
            let (a, b) = trim_bounds(&cs, 0, cs.len());
            let target = string_of(&cs, a, b);
            join(git_dir, target.as_str())
        },
        None => String::from_str(git_dir),
    };
    Repo::new(String::from_str(root), String::from_str(git_dir), common)
}

/// The branches whose name holds `query`, case aside, in the order they
/// were listed.
pub open spec fn branch_hits(all: Seq<String>, query: Seq<char>) -> Seq<Seq<char>>
    decreases all.len(),
{
    if all.len() == 0 {
        Seq::empty()
    } else {
        let init = branch_hits(all.drop_last(), query);
        if contains_text(lowercased(all.last()@), lowercased(query)) { init.push(all.last()@) } else { init }
    }
}

/// The switcher's list for what has been typed.
pub fn filter_branches(all: &Vec<String>, query: &str) -> (r: Vec<String>)
    ensures
        views_of(r@) == branch_hits(all@, query@),
{
    let q = to_lowercase(query);
    let mut out: Vec<String> = Vec::new();
    let mut i: usize = 0;
    assert(all@.take(0) =~= Seq::<String>::empty());
    while i < all.len()
        invariant
            i <= all@.len(),
            q@ == lowercased(query@),
            views_of(out@) == branch_hits(all@.take(i as int), query@),
        decreases all@.len() - i,
    {
        let name = to_lowercase(all[i].as_str());
        proof {
            let t = all@.take(i + 1);
            assert(t.drop_last() =~= all@.take(i as int));
            assert(t.last() == all@[i as int]);
        }
        if contains(name.as_str(), q.as_str()) {
            let ghost prev = out@;
            out.push(String::from_str(all[i].as_str()));
            assert(views_of(out@) =~= views_of(prev).push(all@[i as int]@));
        }
        i += 1;
    }
    assert(all@.take(all@.len() as int) =~= all@);
    out
}

/// The first place `name` stands in `v`, or -1.
pub open spec fn place_of(v: Seq<String>, name: Seq<char>) -> int
    decreases v.len(),
{
    if v.len() == 0 {
        -1
    } else if v[0]@ == name {
        0
    } else {
        let k = place_of(v.skip(1), name);
        if k < 0 { -1 } else { k + 1 }
    }
}

/// Where the switcher's cursor starts: on the branch checked out, when it
/// is listed; else on the first.
pub fn branch_cursor(all: &Vec<String>, current: Option<&str>) -> (r: usize)
    ensures
        r == match current {
            Some(c) => if place_of(all@, c@) >= 0 { place_of(all@, c@) } else { 0 },
            None => 0,
        },
{
    let name = match current {
        Some(c) => c,
        None => return 0,
    };
    let mut i: usize = 0;
    assert(all@.skip(0) =~= all@);
    while i < all.len()
        invariant
            i <= all@.len(),
            current == Some(name),
            place_of(all@, name@) == (if place_of(all@.skip(i as int), name@) < 0 { -1 } else {
                place_of(all@.skip(i as int), name@) + i
            }),
        decreases all@.len() - i,
    {
        assert(all@.skip(i as int).skip(1) =~= all@.skip(i + 1));
        assert(all@.skip(i as int)[0] == all@[i as int]);
        if str_eq(all[i].as_str(), name) {
            return i;
        }
        i += 1;
    }
    assert(all@.skip(i as int) =~= Seq::<String>::empty());
    0
}

/// The cursor kept inside a list of `len` rows once it is filtered.
pub fn clamp_cursor(cursor: usize, len: usize) -> (r: usize)
    ensures
        r == (if len == 0 { 0 } else if cursor < len { cursor as int } else { len - 1 }),
{
    let last = if len == 0 { 0 } else { len - 1 };
    if cursor < last { cursor } else { last }
}

/// The branch Enter switches to: the highlighted one, unless there is none
/// or it is the one checked out already — a switch there could only report
/// success.
pub fn chosen_branch(results: &Vec<String>, cursor: usize, current: Option<&str>) -> (r: Option<String>)
    ensures
        (cursor >= results@.len() || (current matches Some(c) && results@[cursor as int]@ == c@)) ==> r is None,
        !(cursor >= results@.len() || (current matches Some(c) && results@[cursor as int]@ == c@)) ==> (r matches Some(b)
            && b@ == results@[cursor as int]@),
{
    if cursor >= results.len() {
        return None;
    }
    let same = match current {
        Some(c) => str_eq(results[cursor].as_str(), c),
        None => false,
    };
    if same {
        None
    } else {
        Some(String::from_str(results[cursor].as_str()))
    }
}

/// What an `XY` code names, letter by letter: an `A` on either side is an
/// addition; otherwise a `D` on either side — staged, as `git rm` leaves
/// it, or in the worktree — is a deletion; anything else is a modification.
pub proof fn lemma_xy_letters(xy: Seq<char>)
    requires
        xy.len() == 2,
    ensures
        (xy[0] == 'A' || xy[1] == 'A') ==> xy_state(xy) == State::Added,
        (xy[0] != 'A' && xy[1] != 'A' && (xy[0] == 'D' || xy[1] == 'D')) ==> xy_state(xy) == State::Deleted,
        (xy[0] != 'A' && xy[1] != 'A' && xy[0] != 'D' && xy[1] != 'D') ==> xy_state(xy) == State::Modified,
{
}

} // verus!
